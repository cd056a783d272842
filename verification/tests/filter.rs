use m3u_filter::processor::filter::{filter_on_group, IptvChannel};

fn groups_to_chans(groups: &[&str]) -> Vec<IptvChannel> {
    groups
        .iter()
        .map(|&group| IptvChannel {
            group_name: group.to_string(),
        })
        .collect()
}

fn check_filter(input: &[&str], group_name: &str, expected_output: &[&str]) {
    let chans = groups_to_chans(input);
    let filtered = filter_on_group(chans, group_name);
    let expected = groups_to_chans(expected_output);
    assert_eq!(filtered, expected);
}

#[test]
fn filter_on_group_fr_returns_nothing_if_group_is_en() {
    check_filter(&["en"], "fr", &[])
}

#[test]
fn filter_on_group_fr_returns_channel_if_group_is_fr() {
    check_filter(&["fr"], "fr", &["fr"])
}

#[test]
fn filter_on_group_returns_the_relevent_one_of_two() {
    check_filter(&["en", "fr"], "fr", &["fr"])
}
