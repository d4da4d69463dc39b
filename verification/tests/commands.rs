use lfu_cache::helper::{commands, handle_input, parse, Command, Reply, HELP};
use lfu_cache::lfu::LFUCache;

#[test]
fn help_text_is_the_summary() {
    let expected = "
create [capacity]          create LFUCache holder with given capacity
insert [key] [value]          insert value by key
get [key]                  extract value by key; returns -1 in case of wrong key
clear                      remove all values from cache
exit                       close program
";
    assert_eq!(commands(), expected);
    assert_eq!(HELP, expected);
}

#[test]
fn parses_each_command() {
    assert_eq!(parse("create 3\n"), Command::Create(3));
    assert_eq!(parse("insert 1 2\n"), Command::Insert(1, 2));
    assert_eq!(parse("get 7\n"), Command::Get(7));
    assert_eq!(parse("show\n"), Command::Show);
    assert_eq!(parse("clear\n"), Command::Clear);
    assert_eq!(parse("exit\n"), Command::Exit);
    assert_eq!(parse("what\n"), Command::Help);
    assert_eq!(parse("get x\n"), Command::Malformed);
}

#[test]
fn missing_arguments_ask_for_help() {
    assert_eq!(parse("create"), Command::Help);
    assert_eq!(parse("create\n"), Command::Help);
    assert_eq!(parse("insert"), Command::Help);
    assert_eq!(parse("insert 1"), Command::Help);
    assert_eq!(parse("insert 1\n"), Command::Help);
    assert_eq!(parse("insert x"), Command::Help);
    assert_eq!(parse("get"), Command::Help);
    assert_eq!(parse("get\n"), Command::Help);
    assert_eq!(parse(""), Command::Help);
    assert_eq!(parse("\n"), Command::Help);
}

#[test]
fn bare_words_need_their_line_end() {
    assert_eq!(parse("clear"), Command::Help);
    assert_eq!(parse("show"), Command::Help);
    assert_eq!(parse("exit"), Command::Help);
    assert_eq!(parse("clear \n"), Command::Help);
    assert_eq!(parse("clear\r\n"), Command::Help);
    assert_eq!(parse(" clear\n"), Command::Help);
    assert_eq!(parse("Clear\n"), Command::Help);
    assert_eq!(parse("exit\n now"), Command::Exit);
}

#[test]
fn arguments_are_trimmed() {
    assert_eq!(parse("get 5"), Command::Get(5));
    assert_eq!(parse("get 5\r\n"), Command::Get(5));
    assert_eq!(parse("get \t5\t\n"), Command::Get(5));
    assert_eq!(parse("get 5\u{a0}\n"), Command::Get(5));
    assert_eq!(parse("get \u{3000}5\u{2003}"), Command::Get(5));
    assert_eq!(parse("insert 1\t 2\n"), Command::Insert(1, 2));
}

#[test]
fn fields_are_split_at_single_spaces() {
    assert_eq!(parse("get  5\n"), Command::Malformed);
    assert_eq!(parse("get 5 6\n"), Command::Get(5));
    assert_eq!(parse("insert 1  2\n"), Command::Malformed);
    assert_eq!(parse("insert 1 2 3\n"), Command::Insert(1, 2));
    assert_eq!(parse("get \n"), Command::Malformed);
    assert_eq!(parse("get "), Command::Malformed);
    assert_eq!(parse("get\t5\n"), Command::Help);
}

#[test]
fn numbers_have_an_optional_sign_and_digits() {
    assert_eq!(parse("get +5\n"), Command::Get(5));
    assert_eq!(parse("get -5\n"), Command::Get(-5));
    assert_eq!(parse("get -0\n"), Command::Get(0));
    assert_eq!(parse("get 0007\n"), Command::Get(7));
    assert_eq!(parse("get 00000000000000000000012\n"), Command::Get(12));
    assert_eq!(parse("get +\n"), Command::Malformed);
    assert_eq!(parse("get -\n"), Command::Malformed);
    assert_eq!(parse("get --5\n"), Command::Malformed);
    assert_eq!(parse("get 5-\n"), Command::Malformed);
    assert_eq!(parse("get 1_000\n"), Command::Malformed);
    assert_eq!(parse("get 1.5\n"), Command::Malformed);
    assert_eq!(parse("get 0x10\n"), Command::Malformed);
    assert_eq!(parse("get 1 2\n"), Command::Get(1));
    assert_eq!(parse("get \u{661}\n"), Command::Malformed);
}

#[test]
fn numbers_must_fit_thirty_two_bits() {
    assert_eq!(parse("get 2147483647\n"), Command::Get(i32::MAX));
    assert_eq!(parse("get -2147483648\n"), Command::Get(i32::MIN));
    assert_eq!(parse("get 2147483648\n"), Command::Malformed);
    assert_eq!(parse("get -2147483649\n"), Command::Malformed);
    assert_eq!(parse("get 99999999999999999999999999\n"), Command::Malformed);
    assert_eq!(parse("get -99999999999999999999999999\n"), Command::Malformed);
    assert_eq!(parse("insert 2147483647 -2147483648\n"), Command::Insert(i32::MAX, i32::MIN));
}

#[test]
fn parser_agrees_with_the_standard_library_on_numbers() {
    let samples = [
        "0", "1", "-1", "+1", "", "+", "-", "12a", "a12", "2147483647", "2147483648",
        "-2147483648", "-2147483649", "00", "-00", "+-1", "4294967296", " 1", "1 ",
        "9223372036854775808", "١٢",
    ];
    for text in samples.iter() {
        let line = format!("get {}", text);
        let expected = if text.contains(' ') {
            // A space splits the field; only what stands before it counts.
            let first = text.split(' ').next().unwrap();
            first.trim().parse::<i32>().ok()
        } else {
            text.trim().parse::<i32>().ok()
        };
        let got = parse(&line);
        match expected {
            Some(n) => assert_eq!(got, Command::Get(n)),
            None => assert_eq!(got, Command::Malformed),
        }
    }
}

#[test]
fn capacity_must_not_be_negative() {
    assert_eq!(parse("create 0\n"), Command::Create(0));
    assert_eq!(parse("create -0\n"), Command::Create(0));
    assert_eq!(parse("create -1\n"), Command::Malformed);
    assert_eq!(parse("create many\n"), Command::Malformed);
    assert_eq!(parse("create 2147483647\n"), Command::Create(i32::MAX));
}

#[test]
fn handles_a_session() {
    let mut cache = LFUCache::new(0);
    assert_eq!(handle_input(&mut cache, "insert 1 1\n"), Reply::Quiet);
    assert_eq!(handle_input(&mut cache, "get 1\n"), Reply::Value(-1));
    assert_eq!(handle_input(&mut cache, "create 2\n"), Reply::Quiet);
    assert_eq!(cache.capacity(), 2);
    assert_eq!(handle_input(&mut cache, "insert 1 1\n"), Reply::Quiet);
    assert_eq!(handle_input(&mut cache, "insert 2 2\n"), Reply::Quiet);
    assert_eq!(handle_input(&mut cache, "get 1\n"), Reply::Value(1));
    assert_eq!(handle_input(&mut cache, "insert 3 3\n"), Reply::Quiet);
    assert_eq!(handle_input(&mut cache, "get 2\n"), Reply::Value(-1));
    assert_eq!(handle_input(&mut cache, "get 3\n"), Reply::Value(3));
    assert_eq!(handle_input(&mut cache, "get 1\n"), Reply::Value(1));
    assert_eq!(handle_input(&mut cache, "show\n"), Reply::State);
    assert_eq!(cache.len(), 2);
    assert_eq!(handle_input(&mut cache, "clear\n"), Reply::Quiet);
    assert_eq!(cache.len(), 0);
    assert_eq!(cache.capacity(), 2);
    assert_eq!(handle_input(&mut cache, "exit\n"), Reply::Exit);
    assert_eq!(handle_input(&mut cache, "bogus\n"), Reply::Help);
    assert_eq!(handle_input(&mut cache, "get\n"), Reply::Help);
}

#[test]
fn malformed_lines_leave_the_cache_alone() {
    let mut cache = LFUCache::new(2);
    handle_input(&mut cache, "insert 1 10\n");
    assert_eq!(handle_input(&mut cache, "insert 2 x\n"), Reply::Malformed);
    assert_eq!(handle_input(&mut cache, "insert y 2\n"), Reply::Malformed);
    assert_eq!(handle_input(&mut cache, "get z\n"), Reply::Malformed);
    assert_eq!(handle_input(&mut cache, "create -3\n"), Reply::Malformed);
    assert_eq!(handle_input(&mut cache, "create lots\n"), Reply::Malformed);
    assert_eq!(cache.len(), 1);
    assert_eq!(cache.capacity(), 2);
    assert_eq!(cache.frequency(1), Some(1));
    assert_eq!(handle_input(&mut cache, "get 1\n"), Reply::Value(10));
}

#[test]
fn create_replaces_the_cache() {
    let mut cache = LFUCache::new(1);
    handle_input(&mut cache, "insert 1 10\n");
    assert_eq!(handle_input(&mut cache, "create 5\n"), Reply::Quiet);
    assert_eq!(cache.len(), 0);
    assert_eq!(cache.capacity(), 5);
    assert_eq!(handle_input(&mut cache, "get 1\n"), Reply::Value(-1));
}
