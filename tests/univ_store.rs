use std::collections::{BTreeMap, HashMap, HashSet};

use libipld::cbor::DagCborCodec;
use libipld::codec::Codec;
use libipld::Ipld;
use multihash::{Code, MultihashDigest};
use univ_store::env::{Env, EnvError};
use univ_store::name::{Name, NameGenerator, NamePart};
use univ_store::universe::{Univ, UnivAnon, UnivMeta};

fn zero() -> Univ {
    Univ::Zero
}

fn succ(x: Univ) -> Univ {
    Univ::Succ(Box::new(x))
}

fn max(a: Univ, b: Univ) -> Univ {
    Univ::Max(Box::new(a), Box::new(b))
}

fn imax(a: Univ, b: Univ) -> Univ {
    Univ::IMax(Box::new(a), Box::new(b))
}

fn param(n: &str, i: u64) -> Univ {
    Univ::Param(Name::simple(&[n]), i)
}

fn one_entry(key: &str, value: Ipld) -> Ipld {
    let mut m = BTreeMap::new();
    m.insert(key.to_string(), value);
    Ipld::StringMap(m)
}

fn dag_cbor(v: &Ipld) -> Vec<u8> {
    DagCborCodec.encode(v).unwrap()
}

#[test]
fn name_empty_prints_empty() {
    assert_eq!(Name::empty().print(), "");
}

#[test]
fn name_simple_prints_dotted() {
    assert_eq!(Name::simple(&["a", "b"]).print(), ".a.b");
    assert_eq!(Name::simple(&["x"]).print(), ".x");
}

#[test]
fn name_numbers_print_in_decimal() {
    let n = Name {
        system: false,
        parts: vec![NamePart::Str("x".to_string()), NamePart::Num(42), NamePart::Num(0)],
    };
    assert_eq!(n.print(), ".x.42.0");
    let big = Name { system: true, parts: vec![NamePart::Num(u64::MAX)] };
    assert_eq!(big.print(), ".18446744073709551615");
}

#[test]
fn name_simple_keeps_parts_in_order() {
    let n = Name::simple(&["a", "b", "c"]);
    assert!(!n.system);
    assert_eq!(
        n.parts,
        vec![
            NamePart::Str("a".to_string()),
            NamePart::Str("b".to_string()),
            NamePart::Str("c".to_string())
        ]
    );
    assert!(n.same(&Name::simple(&["a", "b", "c"])));
    assert!(!n.same(&Name::simple(&["a", "b"])));
}

#[test]
fn generator_names_are_distinct() {
    let mut g = NameGenerator::new(Name::simple(&["g"]));
    let mut seen = HashSet::new();
    for i in 0..200u64 {
        let n = g.next_name().unwrap();
        assert!(n.system);
        assert_eq!(n.print(), format!(".g.{}", i));
        assert!(seen.insert(n.print()));
    }
    assert_eq!(seen.len(), 200);
}

#[test]
fn generator_with_empty_prefix() {
    let mut g = NameGenerator::new(Name::empty());
    let a = g.next_name().unwrap();
    let b = g.next_name().unwrap();
    assert_eq!(a.parts, vec![NamePart::Num(0)]);
    assert_eq!(b.parts, vec![NamePart::Num(1)]);
    assert!(!a.same(&b));
}

#[test]
fn anon_bytes_match_dag_cbor() {
    let z = UnivAnon::Zero;
    assert_eq!(z.encode(), dag_cbor(&Ipld::String("Zero".to_string())));
    let zc = z.cid().unwrap();
    let s = UnivAnon::Succ(zc.clone());
    assert_eq!(s.encode(), dag_cbor(&one_entry("Succ", Ipld::Bytes(zc.digest().to_vec()))));
    let oc = s.cid().unwrap();
    let m = UnivAnon::Max(zc.clone(), oc.clone());
    let pair = Ipld::List(vec![Ipld::Bytes(zc.digest().to_vec()), Ipld::Bytes(oc.digest().to_vec())]);
    assert_eq!(m.encode(), dag_cbor(&one_entry("Max", pair.clone())));
    let im = UnivAnon::IMax(zc.clone(), oc.clone());
    assert_eq!(im.encode(), dag_cbor(&one_entry("IMax", pair)));
    for i in [0u64, 23, 24, 255, 256, 65535, 65536, 4294967295, 4294967296, u64::MAX] {
        let p = UnivAnon::Param(i);
        assert_eq!(p.encode(), dag_cbor(&one_entry("Param", Ipld::Integer(i as i128))));
    }
}

#[test]
fn meta_bytes_match_dag_cbor() {
    let name = Name {
        system: true,
        parts: vec![NamePart::Str("héllo".to_string()), NamePart::Num(300)],
    };
    let mut fields = BTreeMap::new();
    fields.insert(
        "parts".to_string(),
        Ipld::List(vec![
            one_entry("Str", Ipld::String("héllo".to_string())),
            one_entry("Num", Ipld::Integer(300)),
        ]),
    );
    fields.insert("system".to_string(), Ipld::Bool(true));
    let expected = dag_cbor(&one_entry("Param", Ipld::StringMap(fields)));
    assert_eq!(UnivMeta::Param(name).encode(), expected);
    assert_eq!(UnivMeta::Zero.encode(), dag_cbor(&Ipld::String("Zero".to_string())));
}

#[test]
fn cid_is_sha3_of_canonical_bytes() {
    let z = UnivAnon::Zero;
    let bytes = z.encode();
    let cid = z.cid().unwrap();
    assert_eq!(cid.digest().len(), 32);
    assert_ne!(cid.digest(), bytes.as_slice());
    assert_eq!(cid.digest(), Code::Sha3_256.digest(&bytes).digest());
    let wire = cid.to_bytes();
    assert_eq!(wire[0], 0x16);
    assert_eq!(wire[1], 32);
    assert_eq!(&wire[2..], cid.digest());
    assert_eq!(wire, Code::Sha3_256.digest(&bytes).to_bytes());
}

#[test]
fn repeated_cid_is_deterministic() {
    let mut env = Env::new();
    let t = max(succ(param("u", 0)), imax(zero(), param("v", 1)));
    let a = t.cid(&mut env).unwrap();
    let b = t.cid(&mut env).unwrap();
    assert_eq!(a, b);
    let mut other = Env::new();
    let c = t.cid(&mut other).unwrap();
    assert_eq!(a, c);
}

#[test]
fn storing_twice_keeps_the_size() {
    let mut env = Env::new();
    let first = succ(zero()).store(&mut env).unwrap();
    let sizes = (env.anon_count(), env.meta_count(), env.univ_count());
    assert_eq!(sizes, (2, 2, 1));
    let second = succ(zero()).store(&mut env).unwrap();
    assert_eq!(first, second);
    assert_eq!((env.anon_count(), env.meta_count(), env.univ_count()), sizes);
}

#[test]
fn names_only_change_the_meta_half() {
    let mut env = Env::new();
    let i = Univ::Param(Name::simple(&["i"]), 0).cid(&mut env).unwrap();
    let j = Univ::Param(Name::simple(&["j"]), 0).cid(&mut env).unwrap();
    assert_eq!(i.anon, j.anon);
    assert_ne!(i.meta, j.meta);
    assert_eq!(env.anon_count(), 1);
    assert_eq!(env.meta_count(), 2);
}

#[test]
fn different_indices_change_the_anon_half() {
    let mut env = Env::new();
    let a = param("i", 0).cid(&mut env).unwrap();
    let b = param("i", 1).cid(&mut env).unwrap();
    assert_ne!(a.anon, b.anon);
    assert_eq!(a.meta, b.meta);
}

#[test]
fn zero_and_succ_differ() {
    let mut env = Env::new();
    let a = zero().cid(&mut env).unwrap();
    let b = succ(zero()).cid(&mut env).unwrap();
    assert_ne!(a.anon, b.anon);
    assert_ne!(a.meta, b.meta);
}

#[test]
fn swapped_max_differs() {
    let mut env = Env::new();
    let ab = max(zero(), succ(zero())).cid(&mut env).unwrap();
    let ba = max(succ(zero()), zero()).cid(&mut env).unwrap();
    assert_ne!(ab.anon, ba.anon);
    let iab = imax(zero(), succ(zero())).cid(&mut env).unwrap();
    assert_ne!(iab.anon, ab.anon);
}

struct Lcg(u64);

impl Lcg {
    fn next(&mut self, bound: u64) -> u64 {
        self.0 = self.0.wrapping_mul(6364136223846793005).wrapping_add(1442695040888963407);
        (self.0 >> 33) % bound
    }
}

fn random_tree(g: &mut Lcg, depth: u32) -> Univ {
    let k = if depth == 0 { g.next(2) } else { g.next(5) };
    match k {
        0 => zero(),
        1 => param("p", g.next(3)),
        2 => succ(random_tree(g, depth - 1)),
        3 => max(random_tree(g, depth - 1), random_tree(g, depth - 1)),
        _ => imax(random_tree(g, depth - 1), random_tree(g, depth - 1)),
    }
}

#[test]
fn random_trees_have_no_collision() {
    let mut g = Lcg(7);
    let mut env = Env::new();
    let mut by_cid = HashMap::new();
    for _ in 0..1000 {
        let t = random_tree(&mut g, 4);
        let shape = format!("{:?}", t);
        let c = t.cid(&mut env).unwrap();
        let prev = by_cid.entry(c.anon.clone()).or_insert_with(|| shape.clone());
        assert_eq!(*prev, shape);
    }
    assert!(by_cid.len() > 100);
}

#[test]
fn end_to_end_example() {
    let mut env = Env::new();
    let t = succ(Univ::Param(Name::simple(&["n"]), 0));
    let c = t.store(&mut env).unwrap();
    let anon = UnivAnon::Succ(UnivAnon::Param(0).cid().unwrap()).cid().unwrap();
    let meta = UnivMeta::Succ(UnivMeta::Param(Name::simple(&["n"])).cid().unwrap()).cid().unwrap();
    assert_eq!(c.anon, anon);
    assert_eq!(c.meta, meta);
    assert!(matches!(env.get_anon(&anon), Some(UnivAnon::Succ(_))));
    assert!(matches!(env.get_meta(&meta), Some(UnivMeta::Succ(_))));
}

#[test]
fn lookup_of_missing_key_is_none() {
    let env = Env::new();
    let c = UnivAnon::Zero.cid().unwrap();
    assert!(env.get_anon(&c).is_none());
    let m = UnivMeta::Zero.cid().unwrap();
    assert!(env.get_meta(&m).is_none());
}

#[test]
fn conflicting_insert_is_refused() {
    let mut env = Env::new();
    let zc = UnivAnon::Zero.store(&mut env).unwrap();
    assert_eq!(env.insert_anon(zc.clone(), UnivAnon::Zero), Ok(()));
    let r = env.insert_anon(zc.clone(), UnivAnon::Param(3));
    assert_eq!(r, Err(EnvError::Integrity));
    assert_eq!(env.anon_count(), 1);
    assert!(matches!(env.get_anon(&zc), Some(UnivAnon::Zero)));

    let mc = UnivMeta::Zero.store(&mut env).unwrap();
    let r = env.insert_meta(mc.clone(), UnivMeta::Param(Name::simple(&["q"])));
    assert_eq!(r, Err(EnvError::Integrity));
    assert_eq!(env.meta_count(), 1);
}

#[test]
fn store_fails_on_a_poisoned_key() {
    let mut env = Env::new();
    let zc = UnivAnon::Zero.cid().unwrap();
    env.insert_anon(zc, UnivAnon::Param(9)).unwrap();
    let r = succ(zero()).store(&mut env);
    assert_eq!(r, Err(EnvError::Integrity));
    assert_eq!(env.univ_count(), 0);
    assert_eq!(env.anon_count(), 1);
}
