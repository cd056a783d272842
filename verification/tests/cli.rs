use m3u_filter::cli::{run, split_once, FileTransformFacade, FilterOn, TransformOpts};
use std::cell::RefCell;

struct TransformMock {
    inp: RefCell<String>,
    outp: RefCell<String>,
    grp: RefCell<String>,
}

impl FileTransformFacade for TransformMock {
    fn transform(&self, input_file: String, output_file: String, filter_on: FilterOn) {
        self.inp.replace(input_file);
        self.outp.replace(output_file);
        self.grp.replace(filter_on.value);
    }
}

impl TransformMock {
    fn new() -> TransformMock {
        TransformMock {
            inp: RefCell::new("riendutout".to_string()),
            outp: RefCell::new("riendutout".to_string()),
            grp: RefCell::new("riendutout".to_string()),
        }
    }

    fn has_processed(&self, inp: &str, outp: &str, group: &str) -> bool {
        self.inp.borrow().as_str() == inp
            && self.outp.borrow().as_str() == outp
            && self.grp.borrow().as_str() == group
    }
}

fn process_opts(inp: &str, outp: &str, filter_on: &str) -> TransformMock {
    let opts = TransformOpts {
        input_file: inp.to_string(),
        output_file: outp.to_string(),
        filter_on: FilterOn::from_str(filter_on).unwrap(),
    };

    let transform = TransformMock::new();
    run(opts, &transform);
    transform
}

#[test]
fn run_transform_if_in_and_out_files_are_set() {
    let transform = process_opts("toto", "tata", "group-title=.");
    assert!(transform.has_processed("toto", "tata", "."));
}

#[test]
fn run_transform_with_empty_filenames_if_filenames_empty() {
    let transform = process_opts("", "", "group-title=.");
    assert!(!transform.has_processed("toto", "tata", "."));
    assert!(transform.has_processed("", "", "."));
}

#[test]
fn filter_on_group_toto_if_relevant_option() {
    let transform = process_opts("toto", "tata", "group-title=EU");
    assert!(transform.has_processed("toto", "tata", "EU"));
}

#[test]
fn split_once_splits_on_first_separator() {
    assert_eq!(split_once("a=b=c", '='), Some(("a", "b=c")));
    assert_eq!(split_once("=v", '='), Some(("", "v")));
    assert_eq!(split_once("novalue", '='), None);
}

#[test]
fn from_str_reports_a_missing_separator() {
    let err = FilterOn::from_str("group-title").unwrap_err();
    assert_eq!(err, "'group-title' is not in property=value format");
}

#[test]
fn from_str_keeps_the_whole_value() {
    let f = FilterOn::from_str("group-title=AR | BEIN SPORT").unwrap();
    assert_eq!(f.prop, "group-title");
    assert_eq!(f.value, "AR | BEIN SPORT");
}
