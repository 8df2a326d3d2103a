use leveldb::util::random::Random;

#[test]
fn random_park_miller_sequence() {
    let mut r = Random::new(1);
    assert_eq!(r.next(), 16807);
    assert_eq!(r.next(), 282475249);
    assert_eq!(r.next(), 1622650073);
    let mut z = Random::new(0);
    assert_eq!(z.next(), 16807);
    let mut m = Random::new(0x7fffffff);
    assert_eq!(m.next(), 16807);
}

#[test]
fn random_uniform_and_one_in() {
    let mut r = Random::new(301);
    for _ in 0..1000 {
        assert!(r.uniform(10) < 10);
    }
    let mut a = Random::new(5);
    let mut b = Random::new(5);
    let x = a.next();
    assert_eq!(b.one_in(7), x % 7 == 0);
    let mut c = Random::new(5);
    assert_eq!(c.uniform(1000), x % 1000);
    let mut d = Random::new(301);
    for _ in 0..1000 {
        assert!(d.skewed(17) < (1 << 17));
    }
}
