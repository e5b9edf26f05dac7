use edi_x12::contract::Stream;
use edi_x12::{TransactionSet, X12Factory, X12};

const ORDER: &str = "ISA*00*          *00*          *ZZ*SENDER         *ZZ*RECEIVER       \
*260908*1030*U*00401*000000001*0*P*>~GS*PO*SENDER*RECEIVER*20260908*1030*1*X*004010~\
ST*850*0001~BEG*00*SA*PO4711**20260908~PO1*1*2*EA*10.00**VP*X001~SE*4*0001~\
GE*1*1~IEA*1*000000001~";

fn stream(text: &str, media_type: Option<&str>) -> Stream {
    Stream::new(text.as_bytes().to_vec(), media_type.map(str::to_string))
}

#[test]
fn a_sound_interchange_holds_bare_and_bound() {
    let bare = X12::new();
    assert!(bare.identify(&stream(ORDER, None)).expect("identify"));
    assert!(bare
        .identify(&stream("x", Some("application/edi-x12; charset=us-ascii")))
        .expect("identify"));
    assert!(!bare.identify(&stream("UNB+", None)).expect("identify"));
    assert!(bare.validate(&stream(ORDER, None)).expect("validate").valid);
    let bound = X12Factory.load("850:004010").expect("load");
    assert_eq!(bound.descriptor().id.0, "edi-x12:850:004010");
    assert!(
        bound
            .validate(&stream(ORDER, None))
            .expect("validate")
            .valid
    );
    assert!(X12::of(TransactionSet::parse("850").expect("parse")).is_bound());
    assert!(!X12Factory
        .load(" ")
        .expect("bare")
        .descriptor()
        .id
        .0
        .contains(':'));
}

#[test]
fn a_set_or_version_that_is_not_the_contract_is_named() {
    let bound = X12::of(TransactionSet::parse("810:004010").expect("parse"));
    let result = bound.validate(&stream(ORDER, None)).expect("validate");
    assert!(!result.valid);
    assert_eq!(result.issues[0].code, "transaction-set");
    assert_eq!(result.issues[0].message, "is 850, the contract is 810");
    assert_eq!(result.issues[0].path.as_deref(), Some("set 1"));
    let bound = X12::of(TransactionSet::parse("850:005010").expect("parse"));
    let result = bound.validate(&stream(ORDER, None)).expect("validate");
    assert_eq!(
        result.issues[0].message,
        "is 850 004010, the contract is 850:005010"
    );
}

#[test]
fn what_is_unsound_does_not_hold() {
    let result = X12::new()
        .validate(&stream(&ORDER.replace("IEA*1*", "IEA*2*"), None))
        .expect("validate");
    assert!(!result.valid);
    assert_eq!(result.issues[0].code, "envelope");
    let result = X12::new()
        .validate(&stream("ISA*short~", None))
        .expect("validate");
    assert_eq!(result.issues[0].code, "malformed");
    let binary = Stream::new(vec![0xff, 0xfe], None);
    assert!(!X12::new().validate(&binary).expect("validate").valid);
    assert!(TransactionSet::parse("85").is_err());
    assert!(TransactionSet::parse("850:").is_err());
    assert!(TransactionSet::parse("a:b:c").is_err());
}
