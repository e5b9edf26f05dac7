use edi_x12::contract::{Stream, ValidationIssue};
use edi_x12::syntax::{not_an_identifier, segments, Interchange, Segment, Separators};
use edi_x12::text::{decimal_text, pieces, read_count, trimmed, uppercase};
use edi_x12::transaction_set::{mismatch, not_a_set};
use edi_x12::{TransactionSet, X12Factory, X12};

const HEAD: &str = "ISA*00*          *00*          *ZZ*SENDER         *ZZ*RECEIVER       \
*260908*1030*U*00401*000000001*0*P*>~";
const BODY: &str = "GS*PO*SENDER*RECEIVER*20260908*1030*1*X*004010~\
ST*850*0001~BEG*00*SA*PO4711**20260908~PO1*1*2*EA*10.00**VP*X001~SE*4*0001~\
GE*1*1~IEA*1*000000001~";

fn order() -> String {
    format!("{HEAD}{BODY}")
}

fn separators() -> Separators {
    Separators {
        element: '*',
        component: '>',
        terminator: '~',
    }
}

fn refusal(text: &str) -> ValidationIssue {
    match Interchange::parse(text) {
        Ok(_) => panic!("{text} reads"),
        Err(issue) => issue,
    }
}

fn departures(body: &str) -> Vec<(String, String)> {
    Interchange::parse(&format!("{HEAD}{body}"))
        .expect("parse")
        .soundness()
        .into_iter()
        .map(|issue| {
            assert_eq!(issue.code, "envelope");
            (issue.message, issue.path.expect("path"))
        })
        .collect()
}

fn said(message: &str, path: &str) -> (String, String) {
    (message.to_string(), path.to_string())
}

#[test]
fn each_refusal_is_worded_and_has_no_path() {
    let cases = [
        ("UNB+", "the interchange does not open with ISA"),
        ("", "the interchange does not open with ISA"),
        ("ISA*00*short~", "ISA is shorter than its 106 characters"),
    ];
    for (text, message) in cases {
        let issue = refusal(text);
        assert_eq!(issue.code, "malformed");
        assert_eq!(issue.message, message);
        assert_eq!(issue.path, None);
    }
    let same = order().replace("*>~", "*>*");
    assert_eq!(
        refusal(&same).message,
        "ISA does not declare distinct separators"
    );
    let unterminated = order();
    let unterminated = unterminated.trim_end_matches('~');
    assert_eq!(
        refusal(unterminated).message,
        "the last segment has no terminator"
    );
    let tag = order().replace("BEG*", "b\"\n*");
    assert_eq!(
        refusal(&tag).message,
        "\"b\\\"\\n\" is not a segment identifier"
    );
    let first = order().replace("BEG*", "LONG*").replace("PO1*", "x*");
    assert_eq!(
        refusal(&first).message,
        "\"LONG\" is not a segment identifier"
    );
    assert_eq!(
        not_an_identifier("?").message,
        "? is not a segment identifier"
    );
}

#[test]
fn a_tag_is_refused_before_a_missing_terminator() {
    let text = order().replace("PO1*", "p*");
    let text = text.trim_end_matches('~');
    assert_eq!(refusal(text).message, "\"p\" is not a segment identifier");
}

#[test]
fn letters_and_digits_do_not_separate() {
    for c in (0u32..0x3000).filter_map(char::from_u32) {
        let text = format!("{}{c}", &HEAD[..105]);
        let refused = match Interchange::parse(&text) {
            Ok(read) => {
                assert_eq!(read.separators().terminator, c);
                false
            }
            Err(issue) => issue.message == "ISA does not declare distinct separators",
        };
        assert_eq!(refused, c == '*' || c.is_alphanumeric(), "{c:?}");
    }
}

#[test]
fn white_space_terminates_where_isa_declares_it() {
    for c in ['\n', '\r', '\t', '\u{85}', '\u{a0}', '\u{3000}'] {
        let text = order().replace('~', &c.to_string());
        let read = Interchange::parse(&text).expect("parse");
        assert_eq!(read.separators().terminator, c);
        assert_eq!(read.segments().len(), 8, "{c:?}");
        assert!(read.soundness().is_empty());
        let spaced = format!("{text}  ");
        assert_eq!(
            Interchange::parse(&spaced).expect("parse").segments(),
            read.segments()
        );
        let cut = &text[..text.len() - c.len_utf8()];
        assert_eq!(refusal(cut).message, "the last segment has no terminator");
    }
    let blanks = order().replace('~', " ");
    assert_eq!(
        refusal(&blanks).message,
        "\"\" is not a segment identifier"
    );
}

#[test]
fn white_space_before_isa_is_nothing() {
    let text = format!("\u{feff}{}", order());
    assert!(Interchange::parse(&text).is_err());
    let text = format!("\r\n \u{2003}{}", order());
    let read = Interchange::parse(&text).expect("parse");
    assert_eq!(read.segments().len(), 8);
    assert_eq!(read.segments()[0].tag, "ISA");
}

#[test]
fn line_breaks_and_blanks_change_no_segment() {
    let plain = Interchange::parse(&order()).expect("parse");
    for breaks in ["\n", "\r\n", " ", "  \n\r\n "] {
        let text = order().replace('~', &format!("~{breaks}"));
        let broken = Interchange::parse(&text).expect("parse");
        assert_eq!(plain.segments(), broken.segments());
    }
    let text = order().replace('~', "~\t");
    assert!(Interchange::parse(&text).is_err());
    let mut runs = ["\r\n", "", " ", "\n\n", "\r", "  ", "\n ", " \r\n"].into_iter();
    let mut uneven = String::new();
    for c in order().chars() {
        uneven.push(c);
        if c == '~' {
            uneven.push_str(runs.next().expect("run"));
        }
    }
    let broken = Interchange::parse(&uneven).expect("parse");
    assert_eq!(plain.segments(), broken.segments());
    let lines = order().replace('~', "\n\n \n");
    let broken = Interchange::parse(&lines).expect("parse");
    assert_eq!(plain.segments(), broken.segments());
}

#[test]
fn a_segment_is_taken_apart() {
    let read = segments("SV1*HC>99213*40**1~\n\n~", separators()).expect("segments");
    assert_eq!(
        read,
        vec![Segment {
            tag: "SV1".to_string(),
            elements: vec![
                vec!["HC".to_string(), "99213".to_string()],
                vec!["40".to_string()],
                vec![String::new()],
                vec!["1".to_string()],
            ],
        }]
    );
    assert_eq!(read[0].element(1), ["HC", "99213"]);
    assert!(read[0].element(5).is_empty());
    assert_eq!(read[0].simple(1), "HC");
    assert_eq!(read[0].simple(3), "");
    assert_eq!(read[0].simple(9), "");
    assert!(segments("", separators()).expect("segments").is_empty());
}

#[test]
fn simple_trims_what_is_white_space() {
    for c in (0u32..=0x10ffff).filter_map(char::from_u32) {
        let segment = Segment {
            tag: "REF".to_string(),
            elements: vec![vec![c.to_string()]],
        };
        assert_eq!(segment.simple(1).is_empty(), c.is_whitespace(), "{c:?}");
    }
    assert_eq!(trimmed(" \ta b\u{a0}\n"), "a b");
}

#[test]
fn openers_and_closers_come_in_turn() {
    assert_eq!(
        departures("ST*850*1~ST*850*2~SE*2*2~IEA*0*000000001~"),
        vec![said(
            "ST inside the set opened at segment 2",
            "segment 3 (ST)"
        )]
    );
    assert_eq!(
        departures("SE*2*2~IEA*0*000000001~"),
        vec![said("SE with no set open", "segment 2 (SE)")]
    );
    assert_eq!(
        departures("GS*PO*S*R*D*T*1~GS*PO*S*R*D*T*2~GE*0*2~IEA*2*000000001~"),
        vec![said("GS inside an open group", "segment 3 (GS)")]
    );
    assert_eq!(
        departures("GE*0*2~IEA*0*000000001~"),
        vec![said("GE with no group open", "segment 2 (GE)")]
    );
    assert_eq!(
        departures("GS*PO*S*R*D*T*1~ST*850*1~"),
        vec![
            said("the interchange does not close with IEA", "segment 3 (ST)"),
            said("the set is never closed by SE", "segment 3 (ST)"),
            said("the group is never closed by GE", "segment 2 (GS)"),
        ]
    );
}

#[test]
fn counts_and_control_numbers_are_held() {
    assert_eq!(
        departures(
            "GS*PO*S*R*D*T*1~ST*850*1~SE*+2*1~ST*850*2~SE*x*3~GE*002*1~IEA*18446744073709551617*2~"
        ),
        vec![
            said("SE counts x segments, the set has 2", "segment 6 (SE)"),
            said("SE closes 3, ST opened 2", "segment 6 (SE)"),
            said(
                "IEA counts 18446744073709551617 groups, the interchange has 1",
                "segment 8 (IEA)"
            ),
            said("IEA closes 2, ISA opened 000000001", "segment 8 (IEA)"),
        ]
    );
    assert_eq!(
        departures("GS*PO*S*R*D*T*1~ST*850*1~SE*2*1~GE*0*7~IEA*1*000000001~"),
        vec![
            said("GE counts 0 sets, the group has 1", "segment 5 (GE)"),
            said("GE closes 7, GS opened 1", "segment 5 (GE)"),
        ]
    );
}

#[test]
fn each_st_is_a_set_with_the_open_group() {
    let body = "ST*850*1~SE*2*1~GS*PO*S*R*D*T*1*X*004010~ST*810*2~SE*2*2~GE*1*1~ST*997*3~SE*2*3~\
IEA*1*000000001~";
    let read = Interchange::parse(&format!("{HEAD}{body}")).expect("parse");
    let sets = read.transaction_sets();
    let seen: Vec<(usize, &str, Option<&str>)> = sets
        .iter()
        .map(|set| (set.0, set.1.simple(1), set.2.map(|group| group.simple(8))))
        .collect();
    assert_eq!(
        seen,
        vec![
            (1, "850", None),
            (2, "810", Some("004010")),
            (3, "997", None),
        ]
    );
}

#[test]
fn a_closed_group_is_not_in_force() {
    let body = "GS*PO*A*B*D*T*1*X*004010~GE*0*1~ST*850*0001~SE*2*0001~IEA*1*000000001~";
    let text = format!("{HEAD}{body}");
    let read = Interchange::parse(&text).expect("parse");
    let sets = read.transaction_sets();
    assert_eq!(sets.len(), 1);
    assert_eq!(sets[0].0, 1);
    assert_eq!(sets[0].1.simple(1), "850");
    assert_eq!(sets[0].2, None);
    let bound = X12Factory.load("850:004010").expect("load");
    let result = bound.examine(Ok(&text));
    assert_eq!(result.issues.len(), 1);
    assert_eq!(
        result.issues[0].message,
        "is 850 , the contract is 850:004010"
    );
}

#[test]
fn a_group_is_not_closed_inside_a_set() {
    let text = order().replace("SE*4*0001~GE*1*1~", "GE*1*1~SE*5*0001~");
    let issues = Interchange::parse(&text).expect("parse").soundness();
    assert_eq!(issues.len(), 1);
    assert_eq!(issues[0].code, "envelope");
    assert_eq!(
        issues[0].message,
        "GE inside the set opened at segment 3"
    );
    assert_eq!(issues[0].path.as_deref(), Some("segment 6 (GE)"));
    assert!(!X12::new().examine(Ok(&text)).valid);
    assert_eq!(
        departures("GS*PO*S*R*D*T*1~ST*850*1~GE*2*3~IEA*1*000000001~"),
        vec![
            said("GE counts 2 sets, the group has 1", "segment 4 (GE)"),
            said("GE closes 3, GS opened 1", "segment 4 (GE)"),
            said("GE inside the set opened at segment 3", "segment 4 (GE)"),
            said("the set is never closed by SE", "segment 3 (ST)"),
        ]
    );
}

#[test]
fn a_count_is_read_as_it_is_written() {
    for n in [0, 1, 9, 10, 99, 100, 12345, usize::MAX] {
        assert_eq!(decimal_text(n), n.to_string());
        assert_eq!(read_count(&decimal_text(n)), Some(n));
    }
    for text in [
        "", "+", "-", "-0", "-1", "+1", "++1", "007", "1_0", " 1", "1 ", "1.0", "\u{661}",
        "99999999999999999999999", "18446744073709551615", "18446744073709551616",
    ] {
        assert_eq!(read_count(text), text.parse::<usize>().ok(), "{text:?}");
    }
}

#[test]
fn pieces_are_what_stands_between() {
    for text in ["", "*", "a", "a*", "*a", "a**b", "a*b*c", "\u{e9}*\u{1f600}"] {
        let split: Vec<String> = text.split('*').map(str::to_string).collect();
        assert_eq!(pieces(text, '*'), split);
        assert_eq!(pieces(text, '*').join("*"), text);
    }
}

#[test]
fn a_reference_names_its_set() {
    for (reference, set) in [
        ("850", "850"),
        (" 850 ", "850"),
        ("850:004010", "850:004010"),
        (" 837 : 005010x222a1 ", "837:005010X222A1"),
        ("850:\u{e4}z", "850:\u{e4}Z"),
    ] {
        let named = TransactionSet::parse(reference).expect("parse");
        assert_eq!(named.reference(), set);
        assert_eq!(
            TransactionSet::parse(&named.reference()).expect("parse"),
            named
        );
        assert_eq!(
            TransactionSet::parse(&uppercase(reference)).expect("parse"),
            named
        );
    }
}

#[test]
fn a_reference_that_names_no_set_is_refused() {
    for reference in ["", "85", "8500", "85a", "850:", "850: ", ":004010", "850:1:2", "\u{665}50"] {
        let error = TransactionSet::parse(reference).expect_err("refused");
        assert_eq!(
            error.message,
            format!("{reference:?} is not SET or SET:VERSION, the set three digits")
        );
    }
    assert_eq!(
        not_a_set("x").message,
        "x is not SET or SET:VERSION, the set three digits"
    );
}

#[test]
fn a_contract_goes_by_the_set_it_is_bound_to() {
    let bare = X12::default();
    assert!(!bare.is_bound());
    assert_eq!(bare.descriptor().id.0, "edi-x12");
    assert_eq!(bare.descriptor().version, "1");
    assert_eq!(bare.descriptor().representation, "application/EDI-X12");
    assert_eq!(X12Factory.technology(), "edi-x12");
    assert!(!X12Factory.load("").expect("load").is_bound());
    let bound = X12Factory.load("850: 004010a ").expect("load");
    assert!(bound.is_bound());
    assert_eq!(bound.descriptor().id.0, "edi-x12:850:004010A");
    let refused = match X12Factory.load("x") {
        Ok(_) => panic!("loaded"),
        Err(error) => error,
    };
    assert_eq!(
        refused.message,
        "\"x\" is not SET or SET:VERSION, the set three digits"
    );
}

#[test]
fn x12_is_known_by_media_type_or_by_its_bytes() {
    let x12 = X12::new();
    let known = |bytes: &[u8], media_type: Option<&str>| {
        x12.identify(&Stream::new(bytes.to_vec(), media_type.map(str::to_string)))
            .expect("identify")
    };
    assert!(known(b"", Some("Application/EDI-x12")));
    assert!(known(b"", Some("  application/edi-x12 ; a=b; c=d")));
    assert!(known(b"ISA", Some("text/plain")));
    assert!(known(b"ISA\xff", None));
    assert!(!known(b"IS", None));
    assert!(!known(b" ISA", None));
    assert!(!known(b"", Some("application/edi-x12x")));
    assert!(!known(b"", Some("; application/edi-x12")));
}

#[test]
fn what_is_not_text_is_malformed() {
    let result = X12::new()
        .validate(&Stream::new(vec![b'I', 0xff], None))
        .expect("validate");
    assert!(!result.valid);
    assert_eq!(result.issues.len(), 1);
    assert_eq!(result.issues[0].code, "malformed");
    assert_eq!(
        result.issues[0].message,
        "not text: invalid utf-8 sequence of 1 bytes from index 1"
    );
    assert_eq!(result.issues[0].path, None);
    let result = X12::new().examine(Err("because".to_string()));
    assert_eq!(result.issues[0].message, "not text: because");
    assert!(X12::new().examine(Ok(&order())).valid);
}

#[test]
fn bound_finds_what_bare_finds_first() {
    let text = order()
        .replace("IEA*1*", "IEA*2*")
        .replace("ST*850", "ST*810");
    let bare = X12::new().examine(Ok(&text));
    let bound = X12Factory
        .load("850:004010")
        .expect("load")
        .examine(Ok(&text));
    assert_eq!(bare.issues.len(), 1);
    assert_eq!(bound.issues.len(), 2);
    assert_eq!(bound.issues[0], bare.issues[0]);
    assert_eq!(bound.issues[1].code, "transaction-set");
    assert_eq!(bound.issues[1].path.as_deref(), Some("set 1"));
}

#[test]
fn a_version_is_held_whatever_its_case() {
    let text = order().replace("*004010~", "*005010x222a1~");
    let bound = X12Factory.load("850:005010X222a1").expect("load");
    assert!(bound.examine(Ok(&text)).valid);
    let header = Segment {
        tag: "ST".to_string(),
        elements: vec![vec!["850".to_string()]],
    };
    let versioned = TransactionSet::parse("850:004010").expect("parse");
    assert_eq!(
        mismatch(&versioned, &header, None).as_deref(),
        Some("is 850 , the contract is 850:004010")
    );
    let alone = TransactionSet::parse("850").expect("parse");
    assert_eq!(mismatch(&alone, &header, None), None);
}
