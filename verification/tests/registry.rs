use oblioplib::context::{Command, ObliData, NOT_IN_USE};
use oblioplib::logger::Logger;
use oblioplib::manager::{
    copy_into_prefix, data_get_reply, push_data_handler, DataManager, ALREADY_REGISTERED, DATA_NOT_READY,
    DATA_READY, NOT_READY_LOG,
};
use oblioplib::strmap::StrMap;
use oblioplib::util::sprint_byte;

fn data(id: &str, prepared: bool, in_use: i32) -> ObliData {
    ObliData {
        name: format!("name-{}", id),
        id: id.to_string(),
        addr: 7,
        length: 3,
        prepared,
        in_use,
    }
}

#[test]
fn insert_marks_data_ready_and_copies_bytes() {
    let mut dm = DataManager::new();
    let d = data("a", false, 2);
    assert_eq!(dm.insert("a", &d, &[1, 2, 3]), Ok(()));
    let got = dm.get_data("a").unwrap();
    assert!(got.description.prepared);
    assert_eq!(got.description.id, "a");
    assert_eq!(got.description.name, "name-a");
    assert_eq!(got.description.in_use, 2);
    assert_eq!(got.buffer, vec![1, 2, 3]);
    assert!(dm.get_data("b").is_none());
}

#[test]
fn second_insert_under_same_key_is_refused() {
    let mut dm = DataManager::new();
    let d = data("a", false, 0);
    assert_eq!(dm.insert("a", &d, &[1]), Ok(()));
    let other = data("other", false, 9);
    assert_eq!(dm.insert("a", &other, &[4, 5]), Err(ALREADY_REGISTERED));
    let got = dm.get_data("a").unwrap();
    assert_eq!(got.buffer, vec![1]);
    assert_eq!(got.description.in_use, 0);
}

#[test]
fn insert_with_status_keeps_the_asked_readiness() {
    let mut dm = DataManager::new();
    let d = data("out", true, 0);
    assert_eq!(dm.insert_with_status("out", &d, &[], false), Ok(()));
    assert!(!dm.get_data("out").unwrap().description.prepared);
    assert!(dm.contains("out"));
    assert!(!dm.contains("in"));
}

#[test]
fn get_data_mut_changes_the_registered_data() {
    let mut dm = DataManager::new();
    dm.insert("a", &data("a", false, 0), &[1]).unwrap();
    dm.get_data_mut("a").unwrap().buffer.push(9);
    dm.get_data_mut("a").unwrap().description.in_use = 4;
    let got = dm.get_data("a").unwrap();
    assert_eq!(got.buffer, vec![1, 9]);
    assert_eq!(got.description.in_use, 4);
    assert!(dm.get_data_mut("zzz").is_none());
}

#[test]
fn push_data_handler_registers_under_the_data_id() {
    let mut dm = DataManager::new();
    let d = data("pushed", false, 1);
    assert_eq!(push_data_handler(&mut dm, &d, &[8, 8]), Ok(()));
    assert_eq!(dm.get_data("pushed").unwrap().buffer, vec![8, 8]);
    assert!(dm.get_data("pushed").unwrap().description.prepared);
    assert_eq!(push_data_handler(&mut dm, &d, &[1]), Err(ALREADY_REGISTERED));
}

#[test]
fn data_get_reply_copies_registered_bytes() {
    let mut dm = DataManager::new();
    dm.insert("a", &data("a", false, 0), &[5, 6, 7]).unwrap();
    let mut out = [0u8; 5];
    let mut logger = Logger::new();
    let reply = data_get_reply(&dm, &data("a", false, 0), &mut out, &mut logger);
    assert!(reply.ok);
    assert_eq!(reply.info, DATA_READY);
    assert!(matches!(reply.method, Command::DataGet));
    assert_eq!(out, [5, 6, 7, 0, 0]);
    assert_eq!(logger.next(), None);
}

#[test]
fn data_get_reply_logs_missing_data() {
    let dm = DataManager::new();
    let mut out = [1u8; 2];
    let mut logger = Logger::new();
    let reply = data_get_reply(&dm, &data("missing", false, 0), &mut out, &mut logger);
    assert!(!reply.ok);
    assert_eq!(reply.info, DATA_NOT_READY);
    assert_eq!(out, [1, 1]);
    assert_eq!(logger.next(), Some(NOT_READY_LOG.to_string()));
    assert_eq!(logger.next(), None);
}

#[test]
fn copy_into_prefix_overwrites_the_front() {
    let mut dst = [9u8; 4];
    copy_into_prefix(&mut dst, &[1, 2]);
    assert_eq!(dst, [1, 2, 9, 9]);
    copy_into_prefix(&mut dst, &[]);
    assert_eq!(dst, [1, 2, 9, 9]);
}

#[test]
fn logger_hands_out_first_line_and_moves_last_up() {
    let mut logger = Logger::new();
    logger.log("a".to_string());
    logger.log("b".to_string());
    logger.log("c".to_string());
    assert_eq!(logger.next(), Some("a".to_string()));
    assert_eq!(logger.next(), Some("c".to_string()));
    assert_eq!(logger.next(), Some("b".to_string()));
    assert_eq!(logger.next(), None);
}

#[test]
fn logged_line_into_empty_logger_is_next() {
    let mut logger = Logger::new();
    logger.log("only".to_string());
    assert_eq!(logger.next(), Some("only".to_string()));
    assert_eq!(logger.next(), None);
}

#[test]
fn in_use_counts_up_and_down() {
    let mut d = data("a", true, 0);
    assert_eq!(d.decrease_in_use(), Err(NOT_IN_USE));
    assert_eq!(d.in_use, 0);
    d.increase_in_use();
    d.increase_in_use();
    assert_eq!(d.in_use, 2);
    assert_eq!(d.decrease_in_use(), Ok(()));
    assert_eq!(d.in_use, 1);
    let mut neg = data("n", true, -3);
    assert_eq!(neg.decrease_in_use(), Err(NOT_IN_USE));
    assert_eq!(neg.in_use, -3);
}

#[test]
fn in_use_stays_at_the_largest_count() {
    let mut d = data("a", true, i32::MAX);
    d.increase_in_use();
    assert_eq!(d.in_use, i32::MAX);
}

#[test]
fn clone_copies_every_field() {
    let d = data("c", true, 5);
    let e = d.clone();
    assert_eq!(e.name, d.name);
    assert_eq!(e.id, d.id);
    assert_eq!(e.addr, d.addr);
    assert_eq!(e.length, d.length);
    assert_eq!(e.prepared, d.prepared);
    assert_eq!(e.in_use, d.in_use);
}

#[test]
fn strmap_insert_replaces_and_reports_previous() {
    let mut m: StrMap<u32> = StrMap::new();
    assert_eq!(m.insert("x".to_string(), 1), None);
    assert_eq!(m.insert("y".to_string(), 2), None);
    assert_eq!(m.insert("x".to_string(), 3), Some(1));
    assert_eq!(m.get("x"), Some(&3));
    assert_eq!(m.get("y"), Some(&2));
    assert_eq!(m.get("z"), None);
    assert!(m.contains_key("y"));
    *m.get_mut("y").unwrap() = 7;
    assert_eq!(m.get("y"), Some(&7));
    assert!(m.get_mut("q").is_none());
}

#[test]
fn sprint_byte_prints_decimal_then_characters() {
    let rule = "// ------------------ print byte ------------------ //\n";
    let expected = format!("{}72 105 0 255 \nHi\u{0}\u{ff}\n{}", rule, rule);
    assert_eq!(sprint_byte(&[72, 105, 0, 255]), expected);
}

#[test]
fn sprint_byte_of_nothing_is_two_rules() {
    let rule = "// ------------------ print byte ------------------ //\n";
    assert_eq!(sprint_byte(&[]), format!("{}\n\n{}", rule, rule));
}
