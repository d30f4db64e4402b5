use my_zk_rs::ff::Fp25519;
use my_zk_rs::transcript::Transcript;

#[test]
fn field_challenges_are_deterministic_and_advance_the_transcript() {
    let mut lhs = Transcript::new(b"transcript-test");
    let mut rhs = Transcript::new(b"transcript-test");
    lhs.append_bytes(b"message", b"hello");
    rhs.append_bytes(b"message", b"hello");

    let first: Fp25519 = lhs.challenge_field(b"challenge");
    assert_eq!(first, rhs.challenge_field::<_, 4>(b"challenge"));
    assert_ne!(first, lhs.challenge_field::<_, 4>(b"challenge"));
}

#[test]
fn field_challenges_bind_previous_messages() {
    let mut lhs = Transcript::new(b"transcript-test");
    let mut rhs = Transcript::new(b"transcript-test");
    lhs.append_bytes(b"message", b"hello");
    rhs.append_bytes(b"message", b"world");

    assert_ne!(
        lhs.challenge_field::<_, 4>(b"challenge") as Fp25519,
        rhs.challenge_field::<_, 4>(b"challenge") as Fp25519
    );
}

#[test]
fn challenges_depend_on_the_domain_label_and_field_messages() {
    let mut a = Transcript::new(b"domain-a");
    let mut b = Transcript::new(b"domain-b");
    let x: Fp25519 = a.challenge_field(b"c");
    let y: Fp25519 = b.challenge_field(b"c");
    assert_ne!(x, y);

    let mut c = Transcript::new(b"domain-a");
    let mut d = Transcript::new(b"domain-a");
    c.append_field(b"x", &Fp25519::from_u64(1));
    d.append_field(b"x", &Fp25519::from_u64(2));
    assert_ne!(
        c.challenge_field::<_, 4>(b"c") as Fp25519,
        d.challenge_field::<_, 4>(b"c") as Fp25519
    );

    let mut e = Transcript::new(b"domain-a");
    let mut f = Transcript::new(b"domain-a");
    e.append_usize(b"n", 3);
    f.append_usize(b"n", 3);
    e.append_field_list(b"v", &[Fp25519::from_u64(5), Fp25519::from_u64(6)]);
    f.append_field_list(b"v", &[Fp25519::from_u64(5), Fp25519::from_u64(6)]);
    assert_eq!(
        e.challenge_field::<_, 4>(b"c") as Fp25519,
        f.challenge_field::<_, 4>(b"c") as Fp25519
    );
}
