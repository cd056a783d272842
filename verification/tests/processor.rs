use m3u_filter::entry::{Entry, Target};
use m3u_filter::processor::{
    FilteringTransformer, PassiveTransformer, TransformChain, Transformer,
};

fn chan(grp: &str) -> Entry {
    Entry {
        duration: "-1".to_string(),
        display_name: String::new(),
        attributes: vec![(String::new(), grp.to_string())],
        target: Target::Path("local".to_string()),
    }
}

fn chans(slice: &[&str]) -> Vec<Entry> {
    slice.iter().map(|&s| chan(s)).collect()
}

fn process_chans_and_check(groups: &[&str], transf: TransformChain, exp: &[&str]) {
    let channels = chans(groups);
    let expected = chans(exp);
    assert_eq!(transf.process_all_channels(channels), expected);
}

#[test]
fn keep_chans_unchanged_if_no_transformer() {
    let names = ["chan1", "chan2"];
    process_chans_and_check(&names, TransformChain::default(), &names);
}

#[test]
fn keep_chans_unchanged_if_passive_transformer() {
    let names = ["chan1", "chan2"];
    process_chans_and_check(
        &names,
        TransformChain::new(Transformer::Passive(PassiveTransformer {})),
        &names,
    );
}

#[test]
fn keep_no_chan_if_dummy_filter() {
    let names = ["chan1", "chan2"];
    let transf = FilteringTransformer {
        prop: "".to_string(),
        value: "".to_string(),
    };
    let exp = [];
    let chain = TransformChain::new(Transformer::Filter(transf));
    process_chans_and_check(&names, chain, &exp);
}

#[test]
fn keep_chan1_if_filter_on_group_chan1() {
    let names = ["chan1", "chan2"];
    let transf = FilteringTransformer {
        prop: "".to_string(),
        value: "chan1".to_string(),
    };
    let exp = ["chan1"];
    process_chans_and_check(&names, TransformChain::new(Transformer::Filter(transf)), &exp);
}

#[test]
fn apply_all_if_3_transformers() {
    let names = ["chan1", "chan2", "chan3"];
    let transf1 = FilteringTransformer {
        prop: "".to_string(),
        value: "chan1".to_string(),
    };
    let transf2 = FilteringTransformer {
        prop: "".to_string(),
        value: "chan2".to_string(),
    };
    let transf3 = PassiveTransformer {};
    let exp = [];
    process_chans_and_check(
        &names,
        TransformChain::new(Transformer::Filter(transf1))
            .add(Transformer::Filter(transf2))
            .add(Transformer::Passive(transf3)),
        &exp,
    );
}
