use fshost::constants::{DATA_PARTITION_LABEL, DATA_TYPE_GUID, FVM_DRIVER_PATH};
use fshost::device::{Answer, DeviceInfo, DiskFormat, Request};
use fshost::matched::MatchedPaths;
use fshost::matcher::{
    BlobfsMatcher, BootpartMatcher, DataMatcher, Matcher, NandMatcher, PartitionMapMatcher,
    PartitionMatcher, ZxcryptMatcher,
};
use fshost::model::{Action, Event, Offer};

fn ancestors(matched: &MatchedPaths, path: &str) -> Vec<(String, usize)> {
    matched.ancestors(path).into_iter().map(|e| (e.path, e.index)).collect()
}

#[test]
fn ancestors_come_nearest_first() {
    let mut matched = MatchedPaths::new();
    assert!(ancestors(&matched, "a/b").is_empty());
    for (index, path) in ["b", "a/b/c", "a", "a-b", "a/b", "a/b/c/d", "", "a/bc"].iter().enumerate()
    {
        matched.insert(path, index);
    }
    let expected: Vec<(String, usize)> =
        vec![("a/b".to_string(), 4), ("a".to_string(), 2), ("".to_string(), 6)];
    // The path itself is not among them.
    assert_eq!(ancestors(&matched, "a/b/c"), expected);
    assert_eq!(ancestors(&matched, "a/b/"), expected);
    assert_eq!(ancestors(&matched, "a/b"), expected[1..].to_vec());
    assert_eq!(ancestors(&matched, "c"), expected[2..].to_vec());
    assert!(ancestors(&matched, "").is_empty());
}

#[test]
fn a_later_match_replaces_an_earlier_one() {
    let mut matched = MatchedPaths::new();
    matched.insert("a", 1);
    matched.insert("b", 2);
    matched.insert("a", 3);
    assert_eq!(ancestors(&matched, "a/x"), vec![("a".to_string(), 3)]);
    assert_eq!(ancestors(&matched, "b/x"), vec![("b".to_string(), 2)]);
}

fn device(path: &str) -> DeviceInfo {
    DeviceInfo { topological_path: path.to_string(), is_nand: false }
}

#[test]
fn a_bare_partition_matcher_has_nothing_done() {
    let mut matcher = PartitionMatcher::new(DATA_PARTITION_LABEL, &DATA_TYPE_GUID);
    let device = device("disk/fvm/data/block");
    assert!(matches!(
        matcher.match_device(&device, &Event::Appeared),
        Action::Ask(Request::PartitionLabel)
    ));
    let label = Answer::PartitionLabel("data".to_string());
    assert!(matches!(
        matcher.match_device(&device, &Event::Answered(0, label)),
        Action::Ask(Request::PartitionType)
    ));
    let mut type_guid = DATA_TYPE_GUID;
    assert!(matches!(
        matcher.match_device(&device, &Event::Answered(1, Answer::PartitionType(type_guid))),
        Action::Match
    ));
    type_guid[15] ^= 1;
    assert!(matches!(
        matcher.match_device(&device, &Event::Answered(1, Answer::PartitionType(type_guid))),
        Action::Decline
    ));
    let label = Answer::PartitionLabel("dat".to_string());
    assert!(matches!(
        matcher.match_device(&device, &Event::Answered(0, label)),
        Action::Decline
    ));
}

#[test]
fn matchers_without_children_decline_children() {
    let mut matchers: Vec<Box<dyn Matcher>> = vec![
        Box::new(BootpartMatcher::new()),
        Box::new(NandMatcher::new()),
        Box::new(BlobfsMatcher::new()),
        Box::new(DataMatcher::new()),
        Box::new(ZxcryptMatcher::new()),
        Box::new(PartitionMatcher::new(DATA_PARTITION_LABEL, &DATA_TYPE_GUID)),
        Box::new(PartitionMapMatcher::new(DiskFormat::Fvm, false, FVM_DRIVER_PATH, "/fvm", None)),
    ];
    for matcher in matchers.iter_mut() {
        assert!(matches!(
            matcher.match_child(&device("disk/fvm/data/block"), "disk", 0, &Event::Appeared),
            Offer::Decline
        ));
    }
}

#[test]
fn a_map_for_a_ramdisk_looks_at_the_prefix() {
    let mut matcher = PartitionMapMatcher::new(
        DiskFormat::Fvm,
        true,
        FVM_DRIVER_PATH,
        "/fvm",
        Some("ram".to_string()),
    );
    for (path, admitted) in [("ram", true), ("ramdisk", true), ("ra", false), ("xram", false)] {
        assert_eq!(
            matches!(
                matcher.match_device(&device(path), &Event::Appeared),
                Action::Ask(Request::ContentFormat)
            ),
            admitted
        );
    }
}
