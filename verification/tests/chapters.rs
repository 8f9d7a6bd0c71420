use rustlab::basics::{abs, add, double, fib, fizz_buzz};
use rustlab::borrowing::{calculate_length, change, no_dangle, string_length};
use rustlab::collections::{char_count, odd_squares, top_students};
use rustlab::enums::{
    check_even_positive, execute, find_even, parse_age, process_age, Command, TrafficLight,
};
use rustlab::errors::{
    create_user, double_parse, first_line_number, parse_number, validate_age, FirstLineError,
    UserError, ValidationError,
};
use rustlab::generics::{max_value, Article, Color, NewsArticle, Pair, Summary, Tweet};
use rustlab::lifetimes::{longest, shortest, split_first_word, Highlight};
use rustlab::ownership::{gives_ownership, takes_and_gives_back};
use rustlab::structs::{Book, Counter};

#[test]
fn arithmetic_helpers() {
    assert_eq!(add(3, 5), 8);
    assert_eq!(double(21), 42);
    assert_eq!(abs(-5), 5);
    assert_eq!(abs(3), 3);
    assert_eq!(abs(i32::MIN + 1), i32::MAX);
}

#[test]
fn fibonacci_first_ten() {
    let got: Vec<u32> = (0..10).map(fib).collect();
    assert_eq!(got, vec![0, 1, 1, 2, 3, 5, 8, 13, 21, 34]);
    assert_eq!(fib(47), 2971215073);
}

#[test]
fn fizz_buzz_to_fifteen() {
    let lines = fizz_buzz(15);
    assert_eq!(lines.len(), 15);
    assert_eq!(lines[0], "1");
    assert_eq!(lines[2], "Fizz");
    assert_eq!(lines[4], "Buzz");
    assert_eq!(lines[9], "Buzz");
    assert_eq!(lines[13], "14");
    assert_eq!(lines[14], "FizzBuzz");
    assert!(fizz_buzz(0).is_empty());
    assert!(fizz_buzz(-3).is_empty());
}

#[test]
fn ownership_round_trip() {
    assert_eq!(gives_ownership(), "新しい文字列");
    assert_eq!(takes_and_gives_back(String::from("world")), "world");
    let (s, n) = rustlab::ownership::string_length(String::from("héllo"));
    assert_eq!(s, "héllo");
    assert_eq!(n, 6);
}

#[test]
fn borrowing_lengths_and_change() {
    assert_eq!(calculate_length("hello"), 5);
    assert_eq!(string_length("hello, ownership!"), 17);
    assert_eq!(string_length("エコー"), 9);
    let mut s = String::from("hello");
    change(&mut s);
    assert_eq!(s, "hello, world!");
    assert_eq!(no_dangle(), "hello");
    assert_eq!(rustlab::borrowing::first_word("hello world"), "hello");
    assert_eq!(rustlab::borrowing::first_word("single"), "single");
    assert_eq!(rustlab::borrowing::first_word(" lead"), "");
}

#[test]
fn lifetimes_first_longest_shortest() {
    assert_eq!(rustlab::lifetimes::first_word("hello world"), "hello");
    assert_eq!(longest("long string is long", "short"), "long string is long");
    assert_eq!(longest("ab", "cd"), "cd");
    assert_eq!(shortest("hello", "hi"), "hi");
    assert_eq!(shortest("ab", "cd"), "cd");
    // byte lengths decide: "あ" is 3 bytes
    assert_eq!(longest("あ", "ab"), "あ");
}

#[test]
fn split_first_word_cases() {
    assert_eq!(split_first_word("hello world foo"), ("hello", "world foo"));
    assert_eq!(split_first_word("alone"), ("alone", ""));
    assert_eq!(split_first_word("trailing "), ("trailing", ""));
}

#[test]
fn highlight_picks_last_longest_word() {
    let h = Highlight::new("the quick brown fox jumps over the lazy dog");
    assert_eq!(h.text, "the quick brown fox jumps over the lazy dog");
    assert_eq!(h.part, "jumps");
    assert_eq!(Highlight::new("  \t ").part, "");
    assert_eq!(Highlight::new("  single  ").part, "single");
    assert_eq!(Highlight::new("ab\u{3000}あ").part, "あ");
}

#[test]
fn book_summary() {
    let book = Book::new("Rustプログラミング", "著者名", 500);
    assert_eq!(book.summary(), "Rustプログラミング by 著者名 (500p)");
    assert_eq!(book.pages, 500);
}

#[test]
fn counter_steps_and_returns() {
    let mut c = Counter::new();
    assert_eq!(c.value(), 0);
    c.increment();
    c.increment();
    c.decrement();
    assert_eq!(c.value(), 1);
    c.increment();
    c.decrement();
    assert_eq!(c.value(), 1);
    let mut run = Counter::new();
    let (mut ups, mut downs) = (0i32, 0i32);
    for k in 0..200u32 {
        if (k * 7 + 3) % 5 < 2 {
            run.decrement();
            downs += 1;
        } else {
            run.increment();
            ups += 1;
        }
    }
    assert_eq!(run.value(), ups - downs);
}

#[test]
fn find_even_first_match() {
    assert_eq!(find_even(&[1, 3, 5, 7, 9]), None);
    assert_eq!(find_even(&[2, 4, 6]), Some(2));
    assert_eq!(find_even(&[1, -4, 6]), Some(-4));
    assert_eq!(find_even(&[]), None);
}

#[test]
fn parse_age_cases() {
    assert_eq!(parse_age("25"), Ok(25));
    assert_eq!(parse_age("150"), Ok(150));
    assert_eq!(parse_age("abc"), Err("'abc'は数値ではありません".to_string()));
    assert_eq!(parse_age("-5"), Err("'-5'は数値ではありません".to_string()));
    assert_eq!(parse_age("151"), Err("年齢が大きすぎます".to_string()));
}

#[test]
fn process_age_cases() {
    assert_eq!(process_age("30"), Ok("30歳は成人です".to_string()));
    assert_eq!(process_age("18"), Ok("18歳は成人です".to_string()));
    assert_eq!(process_age("17"), Ok("17歳は未成年です".to_string()));
    assert_eq!(process_age("xyz"), Err("'xyz'は数値ではありません".to_string()));
}

#[test]
fn traffic_light_messages() {
    assert_eq!(TrafficLight::Red.message(), "止まれ");
    assert_eq!(TrafficLight::Yellow.message(), "注意");
    assert_eq!(TrafficLight::Green.message(), "進め");
}

#[test]
fn execute_commands() {
    assert_eq!(execute(&Command::Quit), "終了します");
    assert_eq!(execute(&Command::Echo("hi".to_string())), "hi");
    assert_eq!(execute(&Command::Move { x: 10, y: 20 }), "(10, 20) に移動");
    assert_eq!(execute(&Command::Move { x: 10, y: -20 }), "(10, -20) に移動");
    assert_eq!(execute(&Command::Color(255, 0, 7)), "色: rgb(255, 0, 7)");
}

#[test]
fn check_even_positive_cases() {
    assert_eq!(check_even_positive("4"), Ok(Some(4)));
    assert_eq!(check_even_positive("3"), Ok(None));
    assert_eq!(check_even_positive("-2"), Ok(None));
    assert_eq!(check_even_positive("abc"), Err("'abc'は数値ではありません".to_string()));
}

#[test]
fn generic_max_and_pair() {
    assert_eq!(max_value(3, 7), 7);
    assert_eq!(max_value(3.5, 2.7), 3.5);
    assert_eq!(max_value("apple", "banana"), "banana");
    let p = Pair::new(1, 2);
    assert_eq!(p.max(), 2);
    let q = Pair::new("hello", "world");
    assert_eq!(q.max(), "world");
    assert_eq!(Pair::new(5, 5).max(), 5);
}

#[test]
fn longest_slice() {
    let a = [1, 2, 3];
    let b = [4, 5];
    assert_eq!(rustlab::generics::longest(&a, &b), &[1, 2, 3]);
    assert_eq!(rustlab::generics::longest(&b, &[6, 7]), &[4, 5]);
}

#[test]
fn summaries_and_preview() {
    let news = NewsArticle { title: "速報".into(), author: "記者".into() };
    let tweet = Tweet { username: "user1".into(), content: "Hello!".into() };
    let items: Vec<Box<dyn Summary>> = vec![Box::new(news), Box::new(tweet)];
    let lines: Vec<String> = items.iter().map(|i| i.summarize()).collect();
    assert_eq!(lines, vec!["速報 by 記者".to_string(), "@user1: Hello!".to_string()]);
    let short = Article { title: "Rust入門".into(), body: "Rustは安全で高速な...".into() };
    assert_eq!(short.preview(), "Rustは安全で高速な...");
    let long = Article { title: "t".into(), body: "あいうえおかきくけこさしすせそたちつてとなにぬ".into() };
    assert_eq!(long.preview(), "あいうえおかきくけこさしすせそたちつてと...");
    assert_eq!(Color { r: 255, g: 128, b: 0 }.rgb_text(), "rgb(255, 128, 0)");
}

#[test]
fn error_chapter_parsing() {
    assert_eq!(parse_number("42"), Ok(42));
    assert!(parse_number("abc").is_err());
    assert_eq!(double_parse("21"), Ok(42));
    assert!(double_parse("x").is_err());
}

#[test]
fn validate_age_variants() {
    assert!(matches!(validate_age("17"), Ok(17)));
    assert!(matches!(validate_age("abc"), Err(ValidationError::ParseError(_))));
    assert!(matches!(
        validate_age("200"),
        Err(ValidationError::OutOfRange { value: 200, min: 0, max: 150 })
    ));
    assert!(matches!(
        validate_age("-1"),
        Err(ValidationError::OutOfRange { value: -1, min: 0, max: 150 })
    ));
    let from: ValidationError = "z".parse::<i32>().unwrap_err().into();
    assert!(matches!(from, ValidationError::ParseError(_)));
}

#[test]
fn create_user_variants() {
    assert!(matches!(create_user("", "25"), Err(UserError::EmptyName)));
    assert!(matches!(create_user("", "abc"), Err(UserError::EmptyName)));
    assert!(matches!(create_user("Taro", "abc"), Err(UserError::InvalidAge(_))));
    assert!(matches!(
        create_user("Taro", "151"),
        Err(UserError::AgeOutOfRange { value: 151, min: 0, max: 150 })
    ));
    match create_user("Taro", "25") {
        Ok(u) => {
            assert_eq!(u.name, "Taro");
            assert_eq!(u.age, 25);
        }
        Err(_) => panic!("expected a user"),
    }
}

#[test]
fn first_line_number_cases() {
    assert!(matches!(first_line_number("42\nrest"), Ok(42)));
    assert!(matches!(first_line_number("7\r\nrest"), Ok(7)));
    assert!(matches!(first_line_number("-3"), Ok(-3)));
    assert!(matches!(first_line_number(""), Err(FirstLineError::Empty)));
    assert!(matches!(first_line_number("[package]\nname"), Err(FirstLineError::Parse(_))));
    assert!(matches!(first_line_number("\n5"), Err(FirstLineError::Parse(_))));
}

#[test]
fn odd_squares_example() {
    assert_eq!(odd_squares(&[1, 2, 3, 4, 5]), vec![1, 9, 25]);
    assert_eq!(odd_squares(&[-3, 0]), vec![9]);
    assert!(odd_squares(&[]).is_empty());
}

#[test]
fn char_count_hello() {
    let m = char_count("hello");
    assert_eq!(m.len(), 4);
    assert_eq!(m[&('h' as u32)], 1);
    assert_eq!(m[&('e' as u32)], 1);
    assert_eq!(m[&('l' as u32)], 2);
    assert_eq!(m[&('o' as u32)], 1);
    assert!(char_count("").is_empty());
    assert_eq!(char_count("ああい")[&('あ' as u32)], 2);
}

#[test]
fn top_students_above_average_sorted() {
    let scores = vec![
        ("Charlie".to_string(), 85),
        ("Bob".to_string(), 70),
        ("Alice".to_string(), 90),
    ];
    assert_eq!(top_students(&scores), vec!["Alice: 90".to_string(), "Charlie: 85".to_string()]);
    let ties = vec![
        ("Zed".to_string(), 5),
        ("Amy".to_string(), 9),
        ("Amy".to_string(), 7),
        ("Bo".to_string(), -10),
    ];
    // total 11, average 2 (rounded toward zero)
    assert_eq!(
        top_students(&ties),
        vec!["Amy: 9".to_string(), "Amy: 7".to_string(), "Zed: 5".to_string()]
    );
    let negative = vec![("b".to_string(), -3), ("a".to_string(), -4)];
    // total -7, average -3 (rounded toward zero)
    assert_eq!(top_students(&negative), vec!["b: -3".to_string()]);
}
