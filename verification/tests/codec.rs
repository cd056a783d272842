use m3u_filter::codec::{decode_playlist, encode_playlist, ok_entries, DecodeError};
use m3u_filter::entry::{Entry, Target};
use m3u_filter::processor::{
    FilteringTransformer, GetProperty, PropertyError, TransformChain, Transformer,
};

fn example_m3u() -> &'static str {
    "#EXTM3U\n\
     #EXTINF:-1,group-title=\"AR | BEIN SPORT\" #### BEIN SPORT #####\n\
     http://borg.hopto.org:8090/html/greetings.mp4\n"
}

fn first_entry(text: &str) -> Entry {
    let mut records = decode_playlist(text);
    assert!(!records.is_empty());
    records.remove(0).unwrap()
}

#[test]
fn name_property_returns_channel_name() {
    let chan = first_entry(example_m3u());
    assert_eq!(
        chan.get("name").unwrap(),
        Some("#### BEIN SPORT #####".to_string())
    );
}

#[test]
fn url_property_returns_channel_url() {
    let chan = first_entry(example_m3u());
    assert_eq!(
        chan.get("url").unwrap(),
        Some("http://borg.hopto.org:8090/html/greetings.mp4".to_string())
    );
}

#[test]
fn group_name_property_returns_channel_group() {
    let chan = first_entry(example_m3u());
    assert_eq!(
        chan.get("group-title").unwrap(),
        Some("AR | BEIN SPORT".to_string())
    );
}

#[test]
fn url_property_fails_on_a_path_target() {
    let text = "#EXTM3U\n#EXTINF:12.5,A local file\n/media/movie.mp4\n";
    let chan = first_entry(text);
    assert_eq!(chan.get("url"), Err(PropertyError::NotAUrl));
    assert_eq!(chan.target, Target::Path("/media/movie.mp4".to_string()));
    assert_eq!(chan.duration, "12.5");
}

#[test]
fn absent_property_is_reported_absent() {
    let chan = first_entry(example_m3u());
    assert_eq!(chan.get("toto").unwrap(), None);
}

#[test]
fn decode_then_encode_reproduces_the_bytes() {
    let records = decode_playlist(example_m3u());
    let entries: Vec<Entry> = records.into_iter().map(Result::unwrap).collect();
    let out = encode_playlist(&entries);
    assert_eq!(out, example_m3u());
}

fn filter_example(filter: &str) -> String {
    let (prop, value) = filter.split_at(filter.find('=').unwrap());
    let entries: Vec<Entry> = ok_entries(decode_playlist(example_m3u()));
    let transf = FilteringTransformer::new(prop.to_string(), value[1..].to_string());
    let chain = TransformChain::new(Transformer::Filter(transf));
    let kept = chain.process_all_channels(entries);
    encode_playlist(&kept)
}

#[test]
fn output_file_smaller_if_dummy_filter() {
    let src = example_m3u();
    let dest = filter_example("toto=titi");
    assert!(
        src.len() - dest.len() > 10,
        "src.len={} dest.len={}",
        src.len(),
        dest.len()
    );
}

#[test]
fn input_and_output_size_equal_if_filtering_on_actual_group() {
    let src = example_m3u();
    let dest = filter_example("group-title=AR | BEIN SPORT");
    let diff = if src.len() > dest.len() {
        src.len() - dest.len()
    } else {
        dest.len() - src.len()
    };
    assert!(diff < 3, "src.len={} dest.len={}", src.len(), dest.len());
}

#[test]
fn a_bad_duration_is_an_invalid_duration_error() {
    let records = decode_playlist("#EXTM3U\n#EXTINF:abc,Name\n/some/path\n");
    assert_eq!(records[0], Err(DecodeError::InvalidDuration));
    assert_eq!(records.len(), 1);
}

#[test]
fn an_extinf_without_target_is_a_malformed_entry_error() {
    let records = decode_playlist("#EXTM3U\n#EXTINF:-1,Name\n");
    assert_eq!(records, vec![Err(DecodeError::MalformedEntry)]);
}

#[test]
fn a_target_without_extinf_is_a_malformed_entry_error() {
    let records = decode_playlist("#EXTM3U\nhttp://example.org/stream\n");
    assert_eq!(records, vec![Err(DecodeError::MalformedEntry)]);
}

#[test]
fn an_absent_duration_defaults_to_minus_one() {
    let chan = first_entry("#EXTINF:,Name\nhttp://example.org/a\n");
    assert_eq!(chan.duration, "-1");
    assert_eq!(chan.display_name, "Name");
}

#[test]
fn blank_lines_and_comments_are_skipped() {
    let text = "#EXTM3U\n\n# a remark\n#EXTINF:0,\thello \nhttp://example.org/a\n";
    let chan = first_entry(text);
    assert_eq!(chan.display_name, "hello");
    assert_eq!(chan.attributes, vec![]);
}

#[test]
fn the_decoder_resynchronizes_after_a_broken_record() {
    let text = "#EXTM3U\n#EXTINF:abc,Bad\n/skipped/target\n#EXTINF:1,Good\n/kept/target\n";
    let records = decode_playlist(text);
    assert_eq!(records.len(), 2);
    assert_eq!(records[0], Err(DecodeError::InvalidDuration));
    let good = records[1].clone().unwrap();
    assert_eq!(good.display_name, "Good");
    assert_eq!(good.target, Target::Path("/kept/target".to_string()));
}

#[test]
fn encoding_writes_the_exact_lines() {
    let entry = Entry {
        duration: "-1".to_string(),
        display_name: "A name".to_string(),
        attributes: vec![
            ("tvg-id".to_string(), "".to_string()),
            ("group-title".to_string(), "FR | TV".to_string()),
        ],
        target: Target::Url("http://example.org/a".to_string()),
    };
    let out = encode_playlist(&vec![entry]);
    assert_eq!(
        out,
        "#EXTM3U\n#EXTINF:-1,tvg-id=\"\" group-title=\"FR | TV\" A name\nhttp://example.org/a\n"
    );
}

#[test]
fn an_empty_playlist_encodes_to_the_header_alone() {
    let out = encode_playlist(&Vec::new());
    assert_eq!(out, "#EXTM3U\n");
    assert_eq!(decode_playlist(&out), vec![]);
}

#[test]
fn a_doubled_quote_in_a_value_is_unescaped() {
    let text = "#EXTM3U\n#EXTINF:-1,tvg-name=\"The \"\"Best\"\" TV\" Show\nhttp://example.org/a\n";
    let chan = first_entry(text);
    assert_eq!(
        chan.get("tvg-name").unwrap(),
        Some("The \"Best\" TV".to_string())
    );
    assert_eq!(chan.display_name, "Show");
    let out = encode_playlist(&vec![chan]);
    assert_eq!(out, text);
}

#[test]
fn a_quote_in_a_value_is_written_doubled() {
    let entry = Entry {
        duration: "-1".to_string(),
        display_name: "A name".to_string(),
        attributes: vec![("note".to_string(), "say \"hi\"".to_string())],
        target: Target::Path("/a".to_string()),
    };
    let out = encode_playlist(&vec![entry]);
    assert_eq!(
        out,
        "#EXTM3U\n#EXTINF:-1,note=\"say \"\"hi\"\"\" A name\n/a\n"
    );
}

#[test]
fn an_exponent_duration_is_accepted() {
    let chan = first_entry("#EXTINF:1e3,Name\nhttp://example.org/a\n");
    assert_eq!(chan.duration, "1e3");
    let chan = first_entry("#EXTINF:-2.5E-2,Name\nhttp://example.org/a\n");
    assert_eq!(chan.duration, "-2.5E-2");
    let records = decode_playlist("#EXTINF:1e,Name\nhttp://example.org/a\n");
    assert_eq!(records[0], Err(DecodeError::InvalidDuration));
}

#[test]
fn the_target_line_is_kept_verbatim() {
    let chan = first_entry("#EXTINF:1,a\n/with space/file.mp4 \n");
    assert_eq!(chan.target, Target::Path("/with space/file.mp4 ".to_string()));
}

#[test]
fn a_malformed_record_is_skipped_and_the_rest_written() {
    let text = "#EXTM3U\n#EXTINF:abc,Bad\n/skipped\n#EXTINF:1,Good\n/kept\n";
    let entries = ok_entries(decode_playlist(text));
    assert_eq!(entries.len(), 1);
    assert_eq!(entries[0].display_name, "Good");
    let out = encode_playlist(&entries);
    assert_eq!(out, "#EXTM3U\n#EXTINF:1,Good\n/kept\n");
}

#[test]
fn a_target_is_a_url_exactly_when_it_opens_with_a_scheme() {
    let chan = first_entry("#EXTINF:1,a\nrtmp://server/live\n");
    assert_eq!(chan.target, Target::Url("rtmp://server/live".to_string()));
    let chan = first_entry("#EXTINF:1,a\nC:/videos/file.mp4\n");
    assert_eq!(chan.target, Target::Path("C:/videos/file.mp4".to_string()));
}

#[test]
fn a_degenerate_filter_keeps_an_entry_with_an_empty_key() {
    let entry = Entry {
        duration: "-1".to_string(),
        display_name: "odd".to_string(),
        attributes: vec![("".to_string(), "".to_string())],
        target: Target::Path("p".to_string()),
    };
    let transf = FilteringTransformer::new("".to_string(), "".to_string());
    let chain = TransformChain::new(Transformer::Filter(transf));
    let kept = chain.process_all_channels(vec![entry.clone()]);
    assert_eq!(kept, vec![entry]);
}
