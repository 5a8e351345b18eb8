use fixparser::lookahead::LookaheadIndex;
use fixparser::text::{int_to_string, parse_i32, to_chars};
use fixparser::tree::FixEntity;
use fixparser::tokenizer::{
    find_marker, get_separator, pre_process_message, separator_after, split_tokens, TagValue,
    TokenStream,
};
use fixparser::{DecodeError, FixMessage};

fn json(input: &str) -> String {
    FixMessage::from_tag_value(input).unwrap().to_json().to_string()
}

fn chars(s: &str) -> Vec<char> {
    s.chars().collect()
}

#[test]
fn export_twice_is_the_same() {
    let message = FixMessage::from_tag_value("8=FIX.4.4|555=2|600=A|601=x|600=B|10=1").unwrap();
    let first = message.to_json();
    let second = message.to_json();
    assert_eq!(first, second);
    assert_eq!(first.to_string(), second.to_string());
}

#[test]
fn keys_keep_the_order_of_the_tags() {
    let output = r#"{"8":"FIX.4.2","35":"D","49":"A","56":"B","34":"7","1":"acc","10":"000"}"#;
    assert_eq!(output, json("8=FIX.4.2|35=D|49=A|56=B|34=7|1=acc|10=000"));
}

#[test]
fn nested_group_closes_before_second_instance() {
    let input = "8=FIX.4.4|555=2|600=CGY|604=2|605=F7|605=CGYU0|600=CGY|10=209";
    let output = r#"{"8":"FIX.4.4","555":[{"600":"CGY","604":[{"605":"F7"},{"605":"CGYU0"}]},{"600":"CGY"}],"10":"209"}"#;
    assert_eq!(output, json(input));
}

#[test]
fn separator_does_not_matter() {
    let with_pipe = "8=FIX.4.4|555=2|600=CGY|604=2|605=F7|605=CGYU0|600=CGY|10=209";
    let with_soh = "8=FIX.4.4\x01555=2\x01600=CGY\x01604=2\x01605=F7\x01605=CGYU0\x01600=CGY\x0110=209";
    let with_words = "8=FIX.4.4 ;; 555=2 ;; 600=CGY ;; 604=2 ;; 605=F7 ;; 605=CGYU0 ;; 600=CGY ;; 10=209";
    assert_eq!(json(with_pipe), json(with_soh));
    assert_eq!(json(with_pipe), json(with_words));
}

#[test]
fn nothing_behind_the_end_tag_is_exported() {
    let output = r#"{"8":"FIX.4.4","10":"209"}"#;
    assert_eq!(output, json("8=FIX.4.4|10=209|11=a"));
    assert_eq!(output, json("8=FIX.4.4|10=209|11=a|12=b|10=3|8=FIX.4.4|13=c"));
    assert_eq!(output, json("8=FIX.4.4|10=209|junk|10=7"));
}

#[test]
fn first_dropped_tag_is_reported() {
    let message = FixMessage::from_tag_value("8=FIX.4.4|10=209|junk|11=a|12=b").unwrap();
    assert_eq!(Some(11), message.trailing_tag());
    let message = FixMessage::from_tag_value("8=FIX.4.4|10=209|junk|").unwrap();
    assert_eq!(None, message.trailing_tag());
    let message = FixMessage::from_tag_value("8=FIX.4.4|10=209").unwrap();
    assert_eq!(None, message.trailing_tag());
}

#[test]
fn missing_end_tag_is_a_failure() {
    assert_eq!(Some(DecodeError::IncompleteMessage), FixMessage::decode("8=FIX.4.4|35=D|49=A").err());
    assert_eq!(Some(DecodeError::IncompleteMessage), FixMessage::decode("8=FIX.4.4|555=2|600=a|600=b").err());
    assert_eq!(Some(DecodeError::IncompleteMessage), FixMessage::decode("8=FIX.4.4|110=1|100=2").err());
    assert!(FixMessage::from_tag_value("8=FIX.4.4|35=D|49=A").is_none());
}

#[test]
fn malformed_header_is_a_failure() {
    assert_eq!(Some(DecodeError::MalformedHeader), FixMessage::decode("").err());
    assert_eq!(Some(DecodeError::MalformedHeader), FixMessage::decode("no message here").err());
    assert_eq!(Some(DecodeError::MalformedHeader), FixMessage::decode("8").err());
    assert_eq!(Some(DecodeError::MalformedHeader), FixMessage::decode("8=").err());
    assert_eq!(Some(DecodeError::MalformedHeader), FixMessage::decode("8= | 10=123").err());
    assert_eq!(Some(DecodeError::MalformedHeader), FixMessage::decode("9=x|8=FIX.4|10=1").err());
    // no separator: a digit follows the version at once
    assert_eq!(Some(DecodeError::MalformedHeader), FixMessage::decode("8=FIX.4.410=209").err());
    // no separator: no digit follows the version
    assert_eq!(Some(DecodeError::MalformedHeader), FixMessage::decode("8=FIX.4.4").err());
    assert_eq!(Some(DecodeError::MalformedHeader), FixMessage::decode("8=FIX.4.4|||").err());
    // the first `8=` is the one that counts
    assert_eq!(Some(DecodeError::MalformedHeader), FixMessage::decode("18=x|8=FIX.4.4|10=1").err());
}

#[test]
fn optional_field_left_out_in_a_later_instance() {
    let input = "8=FIX.4.4|453=2|448=A|447=D|452=1|448=B|447=D|35=X|10=1";
    let output = r#"{"8":"FIX.4.4","453":[{"448":"A","447":"D","452":"1"},{"448":"B","447":"D"}],"35":"X","10":"1"}"#;
    assert_eq!(output, json(input));
}

#[test]
fn optional_field_new_in_the_last_instance() {
    let input = "8=FIX.4.4|453=2|448=A|452=1|448=B|999=new|452=2|35=X|10=1";
    let output = r#"{"8":"FIX.4.4","453":[{"448":"A","452":"1"},{"448":"B","999":"new","452":"2"}],"35":"X","10":"1"}"#;
    assert_eq!(output, json(input));
}

#[test]
fn unknown_tag_that_comes_again_before_the_delimiter_stays_in_the_group() {
    // 700 is new in the last instance and comes again; 55 stands before a tag that the group knows
    let input = "8=FIX.4.4|77=3|453=2|448=A|448=B|700=x|55=y|700=z|10=1";
    let output = r#"{"8":"FIX.4.4","77":"3","453":[{"448":"A"},{"448":"B","700":"z","55":"y"}],"10":"1"}"#;
    assert_eq!(output, json(input));
    // 700 comes again only behind the next delimiter: it closes the group
    let input = "8=FIX.4.4|453=1|448=A|448=B|700=x|448=C|700=z|10=1";
    let output = r#"{"8":"FIX.4.4","453":[{"448":"A"},{"448":"B"}],"700":"z","448":"C","10":"1"}"#;
    assert_eq!(output, json(input));
}

#[test]
fn fewer_instances_than_declared() {
    let input = "8=FIX.4.4 | 555=5 | 600=QWE | 601=1 | 600=RTY | 601=2 | 10=209";
    let output = r#"{"8":"FIX.4.4","555":[{"600":"QWE","601":"1"},{"600":"RTY","601":"2"}],"10":"209"}"#;
    assert_eq!(output, json(input));
}

#[test]
fn more_instances_than_declared() {
    let input = "8=FIX.4.4|555=1|600=a|600=b|600=c|44=z|10=209";
    let output = r#"{"8":"FIX.4.4","555":[{"600":"a"},{"600":"b"},{"600":"c"}],"44":"z","10":"209"}"#;
    assert_eq!(output, json(input));
}

#[test]
fn declared_count_of_zero_or_less() {
    let output = r#"{"8":"FIX.4.4","555":[{"600":"a"},{"600":"b"}],"44":"z","10":"209"}"#;
    assert_eq!(output, json("8=FIX.4.4|555=0|600=a|600=b|44=z|10=209"));
    assert_eq!(output, json("8=FIX.4.4|555=-3|600=a|600=b|44=z|10=209"));
}

#[test]
fn repeated_tag_without_count_field_stays_a_field() {
    // the first field of the message has no field before it
    assert_eq!(r#"{"8":"x","10":"1"}"#, json("8=FIX.4.4|8=x|10=1"));
    // the field before the first occurrence does not hold an integer
    assert_eq!(r#"{"8":"FIX.4.4","2":"c","10":"1"}"#, json("8=FIX.4.4|2=b|2=c|10=1"));
    assert_eq!(r#"{"8":"FIX.4.4","1":"a","2":"c","10":"1"}"#, json("8=FIX.4.4|1=a|2=b|2=c|10=1"));
}

#[test]
fn group_as_count_field_opens_no_group() {
    // 700 repeats behind the group 555, which is no count field; the
    // candidate of 600 points at what went into the group and counts no more
    let input = "8=FIX.4.4|555=1|600=a|600=b|700=x|600=c|700=y|10=1";
    let output = r#"{"8":"FIX.4.4","555":[{"600":"a"},{"600":"b"}],"700":"y","600":"c","10":"1"}"#;
    assert_eq!(output, json(input));
}

#[test]
fn pieces_that_are_no_tokens_are_left_out() {
    let output = r#"{"8":"FIX.4.4","9":"a","10":"1"}"#;
    assert_eq!(output, json("8=FIX.4.4|9=a|noequals|10=1"));
    assert_eq!(output, json("8=FIX.4.4|9=a|tag=x|10=1"));
    assert_eq!(output, json("8=FIX.4.4|9=a|=x|10=1"));
    assert_eq!(output, json("8=FIX.4.4|9=a|0=x|10=1"));
    assert_eq!(output, json("8=FIX.4.4|9=a|-5=x|10=1"));
    assert_eq!(output, json("8=FIX.4.4|9=a| 7=x|10=1"));
    assert_eq!(output, json("8=FIX.4.4|9=a|7 =x|10=1"));
    assert_eq!(output, json("8=FIX.4.4|9=a|99999999999=x|10=1"));
    assert_eq!(output, json("8=FIX.4.4|9=a|2147483648=x|10=1"));
    assert_eq!(output, json("8=FIX.4.4|9=a||10=1"));
}

#[test]
fn tags_are_read_as_integers() {
    assert_eq!(r#"{"8":"FIX.4.4","35":"D","9":"a","10":"1"}"#, json("8=FIX.4.4|35=D|+9=a|10=1"));
    assert_eq!(r#"{"8":"FIX.4.4","9":"a","10":"1"}"#, json("8=FIX.4.4|009=a|0010=1"));
    assert_eq!(
        r#"{"8":"FIX.4.4","2147483647":"a","10":"1"}"#,
        json("8=FIX.4.4|2147483647=a|10=1")
    );
}

#[test]
fn empty_values_are_kept() {
    assert_eq!(r#"{"8":"FIX.4.4","9":"","10":""}"#, json("8=FIX.4.4|9=|10="));
    assert_eq!(r#"{"8":"FIX.4.4","9":"=","10":"=="}"#, json("8=FIX.4.4|9==|10==="));
}

#[test]
fn text_outside_ascii() {
    let output = r#"{"8":"FIX.4.4","58":"grüße ☃","10":"1"}"#;
    assert_eq!(output, json("préfixe 8=FIX.4.4 · 58=grüße ☃ · 10=1"));
    assert_eq!(r#"{"8":"FIX€4€4","10":"1"}"#, json("8=FIX€4€4|10=1"));
}

#[test]
fn value_is_escaped_by_the_export() {
    let output = r#"{"8":"FIX.4.4","58":"say \"hi\"\\","10":"1"}"#;
    assert_eq!(output, json("8=FIX.4.4|58=say \"hi\"\\|10=1"));
}

#[test]
fn version_field_with_t() {
    assert_eq!(r#"{"8":"FIXT.1.1","10":"1"}"#, json("8=FIXT.1.1|10=1"));
    assert_eq!(r#"{"8":"FIXT1.1","10":"1"}"#, json("8=FIXT1.1|10=1"));
}

#[test]
fn marker_is_the_first_one() {
    assert_eq!(0, find_marker(&chars("8=FIX")));
    assert_eq!(7, find_marker(&chars("Recv | 8=FIX.4.4 | 8=x")));
    assert_eq!(2, find_marker(&chars("888=")));
    assert_eq!(4, find_marker(&chars("8 =8")));
    assert_eq!(0, find_marker(&chars("")));
}

#[test]
fn separator_is_what_stands_before_the_first_digit() {
    assert_eq!(Some(chars("|")), separator_after(&chars("8=FIX.4.4|10=1"), 9));
    assert_eq!(Some(chars(" | ")), separator_after(&chars("8=FIX.4.4 | 10=1"), 9));
    assert_eq!(None, separator_after(&chars("8=FIX.4.410=1"), 9));
    assert_eq!(None, separator_after(&chars("8=FIX.4.4|"), 9));
    assert_eq!(None, separator_after(&chars("8=FIX.4.4"), 9));
    assert_eq!(Some(chars("|")), get_separator("8=FIX.4.4|10=1"));
    assert_eq!(Some(chars("€")), get_separator("8=FIXTé4ü4€10=1"));
    assert_eq!(None, get_separator("8=FIX.a.4|10=1"));
    assert_eq!(None, get_separator(" 8=FIX.4.4|10=1"));
}

#[test]
fn tokens_are_cut_at_the_separator() {
    let stream = split_tokens(&chars("8=a||9=b|||10=c||11=d"), &chars("||"));
    let tokens: Vec<(i32, String)> =
        stream.tokens.into_iter().map(|t| (t.tag, t.value)).collect();
    assert_eq!(
        vec![(8, "a".to_string()), (9, "b".to_string()), (11, "d".to_string())],
        tokens
    );
    assert_eq!(None, stream.trailing);
    let stream = split_tokens(&chars("8=a||9=b||10=c|||11=d"), &chars("||"));
    let tokens: Vec<(i32, String)> =
        stream.tokens.into_iter().map(|t| (t.tag, t.value)).collect();
    assert_eq!(
        vec![(8, "a".to_string()), (9, "b".to_string()), (10, "c".to_string())],
        tokens
    );
    assert_eq!(None, stream.trailing);
}

#[test]
fn preprocessing_gives_the_tokens() {
    let stream = pre_process_message("x 8=FIX.4.4 | 9=a=b | c | 10= | 11=d | 12=e").unwrap();
    let tokens: Vec<(i32, String)> =
        stream.tokens.into_iter().map(|t| (t.tag, t.value)).collect();
    assert_eq!(
        vec![(8, "FIX.4.4".to_string()), (9, "a=b".to_string()), (10, "".to_string())],
        tokens
    );
    assert_eq!(Some(11), stream.trailing);
    assert!(pre_process_message("8=FIX.4.4").is_none());
    let stream = pre_process_message("8=FIX.4.4|9=a").unwrap();
    assert_eq!(2, stream.tokens.len());
}

#[test]
fn integers_are_parsed_as_rust_does() {
    let cases = [
        "0", "7", "42", "+42", "-42", "007", "-0", "+0", "2147483647", "-2147483648",
        "2147483648", "-2147483649", "99999999999999999999", "", "+", "-", "4 2", " 42", "42 ",
        "4a", "a4", "--4", "+-4", "٤٢", "1_000", "0x10",
    ];
    for case in cases {
        let v = to_chars(case);
        assert_eq!(case.parse::<i32>().ok(), parse_i32(&v, 0, v.len()));
    }
    let v = to_chars("ab12cd");
    assert_eq!(Some(12), parse_i32(&v, 2, 4));
    assert_eq!(None, parse_i32(&v, 1, 4));
    assert_eq!(None, parse_i32(&v, 3, 3));
}

#[test]
fn integers_are_written_in_decimal() {
    assert_eq!("0", int_to_string(0));
    assert_eq!("7", int_to_string(7));
    assert_eq!("10", int_to_string(10));
    assert_eq!("1028", int_to_string(1028));
    assert_eq!("-5", int_to_string(-5));
    assert_eq!("2147483647", int_to_string(i32::MAX));
    assert_eq!("-2147483648", int_to_string(i32::MIN));
}

#[test]
fn characters_are_taken_one_by_one() {
    assert_eq!(vec!['a', 'é', '☃', '1'], to_chars("aé☃1"));
    assert_eq!(Vec::<char>::new(), to_chars(""));
}

#[test]
fn tree_of_a_nested_message() {
    let message = FixMessage::from_tag_value("8=FIX.4.4|555=2|600=A|604=1|605=x|605=y|600=B|10=1").unwrap();
    let root = message.root();
    assert_eq!(3, root.entities.len());
    match &root.entities[1] {
        FixEntity::Group(group) => {
            assert_eq!(555, group.no_tag);
            assert_eq!(600, group.delimiter);
            assert_eq!(2, group.repetitions);
            assert_eq!(2, group.current_iteration());
            assert_eq!(2, group.instances.len());
            assert_eq!(2, group.instances[0].entities.len());
            assert_eq!(1, group.instances[1].entities.len());
            let mut known: Vec<i32> = group.known_tags.iter().copied().collect();
            known.sort();
            assert_eq!(vec![600, 604, 605], known);
            match &group.instances[0].entities[1] {
                FixEntity::Group(inner) => {
                    assert_eq!(604, inner.no_tag);
                    assert_eq!(605, inner.delimiter);
                    assert_eq!(1, inner.repetitions);
                    assert_eq!(2, inner.current_iteration());
                    assert_eq!(2, inner.instances.len());
                },
                FixEntity::Field(..) => panic!("a group was expected"),
            }
        },
        FixEntity::Field(..) => panic!("a group was expected"),
    }
    match &root.entities[2] {
        FixEntity::Field(tag, value) => {
            assert_eq!(10, *tag);
            assert_eq!("1", value);
        },
        FixEntity::Group(_) => panic!("a field was expected"),
    }
}

#[test]
fn three_levels_of_groups() {
    let input = "8=FIX.4.4|100=2|101=a|110=2|111=b|120=2|121=c|121=d|111=e|101=f|10=1";
    let output = r#"{"8":"FIX.4.4","100":[{"101":"a","110":[{"111":"b","120":[{"121":"c"},{"121":"d"}]},{"111":"e"}]},{"101":"f"}],"10":"1"}"#;
    assert_eq!(output, json(input));
}

#[test]
fn group_that_begins_an_instance_of_its_parent() {
    // the count field 604 is the delimiter of the outer group: the second
    // instance of 555 holds the inner group alone
    let input = "8=FIX.4.4|555=2|604=2|605=a|605=b|604=2|605=c|605=d|10=1";
    let message = FixMessage::from_tag_value(input).unwrap();
    match &message.root().entities[1] {
        FixEntity::Group(outer) => {
            assert_eq!(604, outer.delimiter);
            assert_eq!(2, outer.instances.len());
            for instance in &outer.instances {
                assert_eq!(1, instance.entities.len());
                assert_eq!(604, instance.entities[0].get_tag());
            }
        },
        FixEntity::Field(..) => panic!("a group was expected"),
    }
}

#[test]
fn long_message_with_many_instances() {
    let mut input = String::from("8=FIX.4.4|");
    let mut expected = String::from(r#"{"8":"FIX.4.4","#);
    for tag in 1000..3000 {
        input.push_str(&format!("{}=v{}|", tag, tag));
        expected.push_str(&format!(r#""{}":"v{}","#, tag, tag));
    }
    input.push_str("555=400|");
    expected.push_str(r#""555":["#);
    for instance in 0..400 {
        input.push_str(&format!("600={}|601=a|602=b|603=c|", instance));
        if instance > 0 {
            expected.push(',');
        }
        expected.push_str(&format!(r#"{{"600":"{}","601":"a","602":"b","603":"c"}}"#, instance));
    }
    input.push_str("10=000|");
    expected.push_str(r#"],"10":"000"}"#);
    assert_eq!(expected, json(&input));
}

#[test]
fn leaves_of_the_tree_are_the_tokens_in_order() {
    fn tags_in_order(component: &fixparser::tree::FixComponent, out: &mut Vec<i32>) {
        for entity in &component.entities {
            out.push(entity.get_tag());
            if let FixEntity::Group(group) = entity {
                for instance in &group.instances {
                    tags_in_order(instance, out);
                }
            }
        }
    }
    let input = "8=FIX.4.4|555=2|600=A|604=2|605=x|605=y|600=B|604=1|605=z|700=q|10=1";
    let message = FixMessage::from_tag_value(input).unwrap();
    let mut tags = Vec::new();
    tags_in_order(message.root(), &mut tags);
    assert_eq!(vec![8, 555, 600, 604, 605, 605, 600, 604, 605, 700, 10], tags);
}

#[test]
fn lookahead_queues_are_consumed_from_the_front() {
    let tags = vec![8, 5, 7, 5, 5, 10];
    let mut index = LookaheadIndex::new(&tags);
    assert_eq!(Some(0), index.peek(8));
    assert_eq!(Some(1), index.peek(5));
    assert_eq!(Some(5), index.peek(10));
    assert_eq!(None, index.peek(9));
    index.consume(8);
    assert_eq!(None, index.peek(8));
    assert_eq!(Some(1), index.peek(5));
    index.consume(5);
    assert_eq!(Some(3), index.peek(5));
    assert_eq!(Some(2), index.peek(7));
    index.consume(7);
    index.consume(5);
    assert_eq!(Some(4), index.peek(5));
    index.consume(5);
    assert_eq!(None, index.peek(5));
    assert_eq!(Some(5), index.peek(10));
    index.consume(10);
    assert_eq!(None, index.peek(10));
}

fn stream(tokens: &[(i32, &str)], trailing: Option<i32>) -> TokenStream {
    TokenStream {
        tokens: tokens
            .iter()
            .map(|(tag, value)| TagValue { tag: *tag, value: value.to_string() })
            .collect(),
        trailing,
    }
}

#[test]
fn tokens_decode_without_a_text() {
    let message = FixMessage::from_tokens(stream(
        &[(8, "FIX.4.4"), (555, "2"), (600, "CGY"), (604, "2"), (605, "F7"), (605, "CGYU0"),
            (600, "CGY"), (10, "209")],
        Some(11),
    ))
    .unwrap();
    let output = r#"{"8":"FIX.4.4","555":[{"600":"CGY","604":[{"605":"F7"},{"605":"CGYU0"}]},{"600":"CGY"}],"10":"209"}"#;
    assert_eq!(output, message.to_json().to_string());
    assert_eq!(Some(11), message.trailing_tag());
}

#[test]
fn end_tag_closes_a_group_that_expects_more_instances() {
    // the group declares three instances and two come: tag 10 ends the
    // message and with it the group
    let message = FixMessage::from_tokens(stream(
        &[(8, "FIX.4.4"), (555, "3"), (600, "a"), (600, "b"), (10, "c")],
        None,
    ))
    .unwrap();
    let output = r#"{"8":"FIX.4.4","555":[{"600":"a"},{"600":"b"}],"10":"c"}"#;
    assert_eq!(output, message.to_json().to_string());
    // any other tag is taken into a group that expects more instances
    let message = FixMessage::from_tokens(stream(
        &[(8, "FIX.4.4"), (555, "3"), (600, "a"), (600, "b"), (44, "z"), (10, "c")],
        None,
    ))
    .unwrap();
    let output = r#"{"8":"FIX.4.4","555":[{"600":"a"},{"600":"b","44":"z"}],"10":"c"}"#;
    assert_eq!(output, message.to_json().to_string());
}

#[test]
fn tokens_must_end_with_the_end_tag() {
    let incomplete = Some(DecodeError::IncompleteMessage);
    assert_eq!(incomplete, FixMessage::from_tokens(stream(&[], None)).err());
    assert_eq!(incomplete, FixMessage::from_tokens(stream(&[(8, "FIX.4.4")], None)).err());
    assert_eq!(
        incomplete,
        FixMessage::from_tokens(stream(&[(8, "FIX.4.4"), (10, "1"), (11, "x")], None)).err()
    );
    assert_eq!(
        incomplete,
        FixMessage::from_tokens(stream(&[(8, "FIX.4.4"), (10, "1"), (10, "2")], None)).err()
    );
    assert!(FixMessage::from_tokens(stream(&[(10, "1")], None)).is_ok());
}
