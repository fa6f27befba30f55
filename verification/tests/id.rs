use protowave::{ParticipantId, WaveId, WaveletName, IdError, validate_domain, validate_token};

#[test]
fn participant_roundtrip_and_lowercasing() {
    let p: ParticipantId = "Ada.Lovelace@Example.ORG".parse().unwrap();
    assert_eq!(p.local(), "ada.lovelace");
    assert_eq!(p.domain(), "example.org");
    assert_eq!(p.to_string(), "ada.lovelace@example.org");
}

#[test]
fn participant_rejects_malformed() {
    assert!("no-at-sign".parse::<ParticipantId>().is_err());
    assert!("two@at@signs".parse::<ParticipantId>().is_err());
    assert!("@example.org".parse::<ParticipantId>().is_err());
    assert!("user@".parse::<ParticipantId>().is_err());
    assert!("us er@example.org".parse::<ParticipantId>().is_err());
    assert!("user@-bad-.org".parse::<ParticipantId>().is_err());
}

#[test]
fn wave_id_roundtrip() {
    let w: WaveId = "example.org/w+abc123".parse().unwrap();
    assert_eq!(w.domain(), "example.org");
    assert_eq!(w.id(), "w+abc123");
    assert_eq!(w.to_string(), "example.org/w+abc123");
    assert!("example.org/a/b".parse::<WaveId>().is_err());
    assert!("no-slash".parse::<WaveId>().is_err());
}

#[test]
fn wavelet_name_same_domain_compact_form() {
    let n: WaveletName = "example.org/w+1/conv+root".parse().unwrap();
    assert_eq!(n.wave_id.to_string(), "example.org/w+1");
    assert_eq!(n.wavelet_id.to_string(), "example.org/conv+root");
    assert_eq!(n.to_string(), "example.org/w+1/conv+root");
}

#[test]
fn wavelet_name_cross_domain_form() {
    let n: WaveletName = "a.org/w+1/b.org/user+data".parse().unwrap();
    assert_eq!(n.wave_id.domain(), "a.org");
    assert_eq!(n.wavelet_id.domain(), "b.org");
    assert_eq!(n.to_string(), "a.org/w+1/b.org/user+data");
    let back: WaveletName = n.to_string().parse().unwrap();
    assert_eq!(back, n);
}

#[test]
fn id_errors_name_the_fault() {
    assert_eq!(validate_token(""), Err(IdError::Empty));
    assert_eq!(validate_token("a b"), Err(IdError::InvalidChar(' ')));
    assert_eq!(validate_token("a~b.c-d_e+f"), Ok(()));
    assert_eq!(
        validate_domain("x..y"),
        Err(IdError::InvalidDomain("x..y".to_string()))
    );
    assert_eq!(
        "nope".parse::<ParticipantId>(),
        Err(IdError::Malformed { expected: "local@domain", got: "nope".to_string() })
    );
    assert_eq!(
        "a/b".parse::<WaveletName>(),
        Err(IdError::Malformed {
            expected: "wave-domain/wave-id[/wavelet-domain]/wavelet-id",
            got: "a/b".to_string()
        })
    );
}

#[test]
fn domain_label_limits() {
    let label63 = "a".repeat(63);
    let label64 = "a".repeat(64);
    assert!(validate_domain(&format!("{label63}.org")).is_ok());
    assert!(validate_domain(&format!("{label64}.org")).is_err());
    let long = vec!["abc"; 64].join(".");
    assert!(long.len() > 253);
    assert!(validate_domain(&long).is_err());
    assert!(validate_domain("a-b.c").is_ok());
    assert!(validate_domain("a.b-").is_err());
    assert!(validate_domain("é.org").is_err());
}

#[test]
fn wave_id_keeps_id_case_and_lowers_domain() {
    let w = WaveId::new("EXAMPLE.org", "W+Abc").unwrap();
    assert_eq!(w.domain(), "example.org");
    assert_eq!(w.id(), "W+Abc");
    let n: WaveletName = "A.org/w+1/a.ORG/x".parse().unwrap();
    // same domain after lower-casing: printed in compact form
    assert_eq!(n.to_string(), "a.org/w+1/x");
}
