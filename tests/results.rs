use s3_bucket_downloader::results::{parse_result_line, parse_results, ResultLine};

fn lines(v: &[&str]) -> Vec<String> {
    v.iter().map(|s| s.to_string()).collect()
}

#[test]
fn listing_with_two_datasets() {
    let input = lines(&[
        "ImageNet dataset",
        "  top1: [0.5, 0.6 , abc]  ",
        "bad: 0.5",
        "",
        "CIFAR   dataset",
        "top5: []",
        "note without colon",
    ]);
    let (entries, malformed) = parse_results(&input, "bench", "mod");
    assert_eq!(entries.len(), 2);
    assert_eq!(entries[0].benchmark, "bench");
    assert_eq!(entries[0].module, "mod");
    assert_eq!(entries[0].dataset, "ImageNet");
    assert_eq!(entries[0].result, "top1");
    assert_eq!(entries[0].values, vec!["0.5", "0.6", "abc"]);
    assert_eq!(entries[1].dataset, "CIFAR");
    assert_eq!(entries[1].result, "top5");
    assert_eq!(entries[1].values, vec![""]);
    assert_eq!(malformed, vec![2]);
}

#[test]
fn results_before_any_dataset_have_an_empty_dataset() {
    let (entries, malformed) = parse_results(&lines(&["r: [1]"]), "b", "m");
    assert_eq!(entries[0].dataset, "");
    assert!(malformed.is_empty());
}

#[test]
fn line_kinds() {
    match parse_result_line("a datasetdataset") {
        ResultLine::Dataset { name } => assert_eq!(name, "a"),
        other => panic!("unexpected {:?}", other),
    }
    match parse_result_line("x: [a,b]dataset") {
        ResultLine::Dataset { name } => assert_eq!(name, "x: [a,b]"),
        other => panic!("unexpected {:?}", other),
    }
    match parse_result_line(" acc : [ 1 ,2:3 ] ") {
        ResultLine::Values { result, values } => {
            assert_eq!(result, "acc");
            assert_eq!(values, vec!["1", "2:3"]);
        }
        other => panic!("unexpected {:?}", other),
    }
    assert!(matches!(parse_result_line("k: [1, 2"), ResultLine::Malformed));
    assert!(matches!(parse_result_line("k: ]"), ResultLine::Malformed));
    assert!(matches!(parse_result_line("   "), ResultLine::Ignored));
    assert!(matches!(parse_result_line("plain text"), ResultLine::Ignored));
}
