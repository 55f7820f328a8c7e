use redis_core::set::{parse_lowered_set_arguments, parse_set_arguments, KeyExistence, KeyExpiry, SetArgs};
use redis_core::storage_result::StorageError;

fn words(ws: &[&str]) -> Vec<String> {
    ws.iter().map(|w| String::from(*w)).collect()
}

#[test]
fn test_parse_nx() {
    let commands: Vec<String> = vec![String::from("NX")];

    let args = parse_set_arguments(&commands).unwrap();

    assert_eq!(args.existence, Some(KeyExistence::NX));
}

#[test]
fn test_parse_nx_lowercase() {
    let commands: Vec<String> = vec![String::from("nx")];

    let args = parse_set_arguments(&commands).unwrap();

    assert_eq!(args.existence, Some(KeyExistence::NX));
}

#[test]
fn test_parse_xx() {
    let commands: Vec<String> = vec![String::from("XX")];

    let args = parse_set_arguments(&commands).unwrap();

    assert_eq!(args.existence, Some(KeyExistence::XX));
}

#[test]
fn test_parse_xx_and_nx() {
    let commands: Vec<String> = vec![String::from("XX"), String::from("NX")];

    assert!(matches!(
        parse_set_arguments(&commands),
        Err(StorageError::CommandSyntaxError(_))
    ));
}

#[test]
fn test_parse_nx_and_xx() {
    let commands: Vec<String> = vec![String::from("NX"), String::from("XX")];

    assert!(matches!(
        parse_set_arguments(&commands),
        Err(StorageError::CommandSyntaxError(_))
    ));
}

#[test]
fn test_parse_get() {
    let commands: Vec<String> = vec![String::from("GET")];

    let args = parse_set_arguments(&commands).unwrap();

    assert!(args.get);
}

#[test]
fn test_parse_nx_and_get() {
    let commands: Vec<String> = vec![String::from("NX"), String::from("GET")];

    let args = parse_set_arguments(&commands).unwrap();

    assert_eq!(
        args,
        SetArgs {
            existence: Some(KeyExistence::NX),
            expiry: None,
            get: true
        }
    );
}

#[test]
fn test_parse_xx_and_get() {
    let commands: Vec<String> = vec![String::from("XX"), String::from("GET")];

    let args = parse_set_arguments(&commands).unwrap();

    assert_eq!(
        args,
        SetArgs {
            existence: Some(KeyExistence::XX),
            expiry: None,
            get: true
        }
    );
}

#[test]
fn test_parse_ex() {
    let commands: Vec<String> = vec![String::from("EX"), String::from("100")];

    let args = parse_set_arguments(&commands).unwrap();

    assert_eq!(args.expiry, Some(KeyExpiry::EX(100)));
}

#[test]
fn test_parse_ex_wrong_value() {
    let commands: Vec<String> = vec![String::from("EX"), String::from("value")];

    assert!(matches!(
        parse_set_arguments(&commands),
        Err(StorageError::CommandSyntaxError(_))
    ));
}

#[test]
fn test_parse_ex_end_of_vector() {
    let commands: Vec<String> = vec![String::from("EX")];

    assert!(matches!(
        parse_set_arguments(&commands),
        Err(StorageError::CommandSyntaxError(_))
    ));
}

#[test]
fn test_parse_px() {
    let commands: Vec<String> = vec![String::from("PX"), String::from("100")];

    let args = parse_set_arguments(&commands).unwrap();

    assert_eq!(args.expiry, Some(KeyExpiry::PX(100)));
}

#[test]
fn test_parse_px_wrong_value() {
    let commands: Vec<String> = vec![String::from("PX"), String::from("value")];

    assert!(matches!(
        parse_set_arguments(&commands),
        Err(StorageError::CommandSyntaxError(_))
    ));
}

#[test]
fn test_parse_px_end_of_vector() {
    let commands: Vec<String> = vec![String::from("PX")];

    assert!(matches!(
        parse_set_arguments(&commands),
        Err(StorageError::CommandSyntaxError(_))
    ));
}

#[test]
fn test_parse_ex_and_px() {
    let commands: Vec<String> = vec![
        String::from("EX"),
        String::from("100"),
        String::from("PX"),
        String::from("100"),
    ];

    assert!(matches!(
        parse_set_arguments(&commands),
        Err(StorageError::CommandSyntaxError(_))
    ));
}

#[test]
fn test_parse_no_arguments_is_default() {
    assert_eq!(parse_set_arguments(&words(&[])), Ok(SetArgs::new()));
    assert_eq!(
        SetArgs::new(),
        SetArgs { expiry: None, existence: None, get: false }
    );
}

#[test]
fn test_parse_error_quotes_all_arguments() {
    assert_eq!(
        parse_set_arguments(&words(&["NX", "EX", "value", "GET"])),
        Err(StorageError::CommandSyntaxError(String::from("NX EX value GET")))
    );
    assert_eq!(
        parse_set_arguments(&words(&["bogus"])),
        Err(StorageError::CommandSyntaxError(String::from("bogus")))
    );
}

#[test]
fn test_parse_mixed_case_and_all_options() {
    let args = parse_set_arguments(&words(&["Px", "25", "gEt", "xX"])).unwrap();
    assert_eq!(
        args,
        SetArgs { expiry: Some(KeyExpiry::PX(25)), existence: Some(KeyExistence::XX), get: true }
    );
}

#[test]
fn test_parse_repeated_options_are_kept() {
    let args = parse_set_arguments(&words(&["NX", "NX", "EX", "1", "EX", "2", "GET", "GET"])).unwrap();
    assert_eq!(
        args,
        SetArgs { expiry: Some(KeyExpiry::EX(2)), existence: Some(KeyExistence::NX), get: true }
    );
}

#[test]
fn test_parse_numbers_as_u64_reads_them() {
    assert_eq!(parse_set_arguments(&words(&["EX", "+5"])).unwrap().expiry, Some(KeyExpiry::EX(5)));
    assert_eq!(
        parse_set_arguments(&words(&["PX", "18446744073709551615"])).unwrap().expiry,
        Some(KeyExpiry::PX(u64::MAX))
    );
    assert_eq!(parse_set_arguments(&words(&["EX", "007"])).unwrap().expiry, Some(KeyExpiry::EX(7)));
    for bad in ["18446744073709551616", "-1", "+", "", " 1", "1_0", "0x10"] {
        assert!(matches!(
            parse_set_arguments(&words(&["EX", bad])),
            Err(StorageError::CommandSyntaxError(_))
        ));
    }
}

#[test]
fn test_parse_px_then_ex_is_refused() {
    assert!(parse_set_arguments(&words(&["PX", "1", "EX", "1"])).is_err());
}

#[test]
fn test_parse_lowered_matches_on_the_lowered_words() {
    let raw = words(&["A", "12"]);
    let lowered = words(&["ex", "12"]);
    assert_eq!(
        parse_lowered_set_arguments(&raw, &lowered),
        Ok(SetArgs { expiry: Some(KeyExpiry::EX(12)), existence: None, get: false })
    );
    let lowered_unknown = words(&["a", "12"]);
    assert_eq!(
        parse_lowered_set_arguments(&raw, &lowered_unknown),
        Err(StorageError::CommandSyntaxError(String::from("A 12")))
    );
}
