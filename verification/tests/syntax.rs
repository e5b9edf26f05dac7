use edi_x12::syntax::{Interchange, ISA_LENGTH};

const SOUND: &str = "ISA*00*          *00*          *ZZ*SENDER         *ZZ*RECEIVER       \
*260908*1030*U*00401*000000001*0*P*>~GS*PO*SENDER*RECEIVER*20260908*1030*1*X*004010~\
ST*850*0001~BEG*00*SA*PO4711**20260908~PO1*1*2*EA*10.00**VP*X001~SE*4*0001~\
GE*1*1~IEA*1*000000001~";

#[test]
fn a_sound_interchange_reads_and_has_no_issues() {
    let interchange = Interchange::parse(SOUND).expect("parse");
    assert_eq!(interchange.separators().element, '*');
    assert_eq!(interchange.separators().component, '>');
    assert_eq!(interchange.segments().len(), 8);
    assert!(interchange.soundness().is_empty());
    let sets: Vec<_> = interchange.transaction_sets().into_iter().collect();
    assert_eq!(sets.len(), 1);
    assert_eq!(sets[0].1.simple(1), "850");
    assert_eq!(sets[0].2.expect("group").simple(8), "004010");
    assert_eq!(interchange.segments()[0].simple(13), "000000001");
}

#[test]
fn line_breaks_after_terminators_are_tolerated() {
    let broken = SOUND.replace('~', "~\r\n");
    let interchange = Interchange::parse(&broken).expect("parse");
    assert_eq!(interchange.segments().len(), 8);
    assert!(interchange.soundness().is_empty());
}

#[test]
fn every_envelope_departure_is_named() {
    let wrong_counts = SOUND
        .replace("SE*4*0001", "SE*5*0002")
        .replace("GE*1*1", "GE*2*9")
        .replace("IEA*1*000000001", "IEA*3*000000002");
    let issues = Interchange::parse(&wrong_counts)
        .expect("parse")
        .soundness();
    let messages: Vec<&str> = issues.iter().map(|i| i.message.as_str()).collect();
    assert_eq!(issues.len(), 6, "{messages:?}");
    assert!(messages[0].starts_with("SE counts 5 segments, the set has 4"));
    assert!(messages[1].starts_with("SE closes 0002, ST opened 0001"));
    assert!(messages[2].starts_with("GE counts 2 sets"));
    assert!(messages[3].starts_with("GE closes 9, GS opened 1"));
    assert!(messages[4].starts_with("IEA counts 3 groups"));
    assert!(messages[5].starts_with("IEA closes 000000002, ISA opened 000000001"));
    assert!(issues.iter().all(|i| i.code == "envelope"));
    assert_eq!(issues[0].path.as_deref(), Some("segment 6 (SE)"));

    let unclosed = SOUND.replace("SE*4*0001~GE*1*1~IEA*1*000000001~", "");
    let issues = Interchange::parse(&unclosed).expect("parse").soundness();
    assert!(issues
        .iter()
        .any(|i| i.message.contains("does not close with IEA")));
    assert!(issues
        .iter()
        .any(|i| i.message.contains("never closed by SE")));
    assert!(issues
        .iter()
        .any(|i| i.message.contains("never closed by GE")));
}

#[test]
fn what_is_not_x12_is_malformed() {
    assert!(Interchange::parse("UNB+UNOC:3+A+B'").is_err());
    assert!(Interchange::parse("ISA*00*short~").is_err());
    assert!(
        Interchange::parse(&SOUND[..ISA_LENGTH - 1]).is_err(),
        "no terminator"
    );
    let bad_tag = SOUND.replace("BEG*", "b*");
    assert!(Interchange::parse(&bad_tag).is_err());
    let same = SOUND.replace("*>~", "*>*");
    assert!(
        Interchange::parse(&same).is_err(),
        "element equals terminator"
    );
}
