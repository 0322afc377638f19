//! Universe levels and their two projections.
//!
//! A [`Univ`] is stored as a pair: a [`UnivAnon`] node that keeps the structure
//! and the parameter indices, and a [`UnivMeta`] node that keeps the parameter
//! names. A node refers to its children by the content identifiers of their
//! projections on the same track, never on the other.
use crate::cbor::{be_bytes, byte_string, head, lemma_head_injective, push_byte_string, push_bytes, push_head};
use crate::digest::{sha3_256, sha3_256_of};
use crate::env::{Env, EnvError};
use crate::name::{name_bytes, Name, NameModel};
use vstd::prelude::*;

verus! {

/// The content identifier of an anonymous node: the SHA3-256 digest of its
/// canonical bytes.
#[derive(Clone, Debug, PartialEq, Eq, PartialOrd, Ord, Hash)]
pub struct UnivAnonCid {
    digest: Vec<u8>,
}

/// The content identifier of a metadata node: the SHA3-256 digest of its
/// canonical bytes.
#[derive(Clone, Debug, PartialEq, Eq, PartialOrd, Ord, Hash)]
pub struct UnivMetaCid {
    digest: Vec<u8>,
}

/// The identifier of a universe level: one identifier on each track.
#[derive(Clone, Debug, PartialEq, Eq, PartialOrd, Ord, Hash)]
pub struct UnivCid {
    pub anon: UnivAnonCid,
    pub meta: UnivMetaCid,
}

impl View for UnivAnonCid {
    type V = Seq<u8>;

    closed spec fn view(&self) -> Seq<u8> {
        self.digest@
    }
}

impl View for UnivMetaCid {
    type V = Seq<u8>;

    closed spec fn view(&self) -> Seq<u8> {
        self.digest@
    }
}

impl View for UnivCid {
    type V = (Seq<u8>, Seq<u8>);

    open spec fn view(&self) -> (Seq<u8>, Seq<u8>) {
        (self.anon@, self.meta@)
    }
}

/// Copies a byte vector.
fn copy_bytes(b: &Vec<u8>) -> (r: Vec<u8>)
    ensures
        r@ == b@,
{
    let mut r: Vec<u8> = Vec::new();
    push_bytes(&mut r, b.as_slice());
    r
}

/// Whether two byte vectors hold the same bytes.
fn same_bytes(a: &Vec<u8>, b: &Vec<u8>) -> (r: bool)
    ensures
        r == (a@ == b@),
{
    if a.len() != b.len() {
        return false;
    }
    let mut i: usize = 0;
    while i < a.len()
        invariant
            i <= a@.len(),
            a@.len() == b@.len(),
            forall|j: int| 0 <= j < i ==> a@[j] == b@[j],
        decreases a@.len() - i,
    {
        if a[i] != b[i] {
            return false;
        }
        i += 1;
    }
    assert(a@ =~= b@);
    true
}

/// The multihash wire form of a SHA3-256 digest: the algorithm's code, the
/// digest's length, then the digest.
pub open spec fn envelope(d: Seq<u8>) -> Seq<u8> {
    seq![0x16u8, d.len() as u8] + d
}

impl UnivAnonCid {
    /// The identifier with the given SHA3-256 digest; `None` unless it is 32
    /// bytes long.
    pub fn from_digest(digest: Vec<u8>) -> (r: Option<UnivAnonCid>)
        ensures
            r is Some <==> digest@.len() == 32,
            r is Some ==> r->Some_0@ == digest@,
    {
        if digest.len() == 32 {
            Some(UnivAnonCid { digest })
        } else {
            None
        }
    }

    /// The raw digest.
    pub fn digest(&self) -> (r: &[u8])
        ensures
            r@ == self@,
    {
        self.digest.as_slice()
    }

    /// The multihash wire form: code, length, digest.
    pub fn to_bytes(&self) -> (r: Vec<u8>)
        requires
            self@.len() < 256,
        ensures
            r@ == envelope(self@),
    {
        let mut r: Vec<u8> = Vec::new();
        r.push(0x16);
        r.push(self.digest.len() as u8);
        push_bytes(&mut r, self.digest.as_slice());
        assert(r@ =~= envelope(self@));
        r
    }

    /// An identifier with the same digest.
    pub fn duplicate(&self) -> (r: UnivAnonCid)
        ensures
            r@ == self@,
    {
        UnivAnonCid { digest: copy_bytes(&self.digest) }
    }

    /// Whether the two identifiers have the same digest.
    pub fn same(&self, other: &UnivAnonCid) -> (r: bool)
        ensures
            r == (self@ == other@),
    {
        same_bytes(&self.digest, &other.digest)
    }
}

impl UnivMetaCid {
    /// The identifier with the given SHA3-256 digest; `None` unless it is 32
    /// bytes long.
    pub fn from_digest(digest: Vec<u8>) -> (r: Option<UnivMetaCid>)
        ensures
            r is Some <==> digest@.len() == 32,
            r is Some ==> r->Some_0@ == digest@,
    {
        if digest.len() == 32 {
            Some(UnivMetaCid { digest })
        } else {
            None
        }
    }

    /// The raw digest.
    pub fn digest(&self) -> (r: &[u8])
        ensures
            r@ == self@,
    {
        self.digest.as_slice()
    }

    /// The multihash wire form: code, length, digest.
    pub fn to_bytes(&self) -> (r: Vec<u8>)
        requires
            self@.len() < 256,
        ensures
            r@ == envelope(self@),
    {
        let mut r: Vec<u8> = Vec::new();
        r.push(0x16);
        r.push(self.digest.len() as u8);
        push_bytes(&mut r, self.digest.as_slice());
        assert(r@ =~= envelope(self@));
        r
    }

    /// An identifier with the same digest.
    pub fn duplicate(&self) -> (r: UnivMetaCid)
        ensures
            r@ == self@,
    {
        UnivMetaCid { digest: copy_bytes(&self.digest) }
    }

    /// Whether the two identifiers have the same digest.
    pub fn same(&self, other: &UnivMetaCid) -> (r: bool)
        ensures
            r == (self@ == other@),
    {
        same_bytes(&self.digest, &other.digest)
    }
}

/// The canonical bytes of the constant: the text `Zero`.
pub open spec fn zero_bytes() -> Seq<u8> {
    seq![0x64u8, 0x5a, 0x65, 0x72, 0x6f]
}

/// The canonical bytes of a successor node: a one-entry map from `Succ` to the
/// child's digest.
pub open spec fn succ_bytes(c: Seq<u8>) -> Seq<u8> {
    seq![0xa1u8, 0x64, 0x53, 0x75, 0x63, 0x63] + byte_string(c)
}

/// The canonical bytes of a maximum node: a one-entry map from `Max` to the
/// pair of the children's digests.
pub open spec fn max_bytes(l: Seq<u8>, r: Seq<u8>) -> Seq<u8> {
    seq![0xa1u8, 0x63, 0x4d, 0x61, 0x78, 0x82] + byte_string(l) + byte_string(r)
}

/// The canonical bytes of an impredicative maximum node: a one-entry map from
/// `IMax` to the pair of the children's digests.
pub open spec fn imax_bytes(l: Seq<u8>, r: Seq<u8>) -> Seq<u8> {
    seq![0xa1u8, 0x64, 0x49, 0x4d, 0x61, 0x78, 0x82] + byte_string(l) + byte_string(r)
}

/// The key that opens the canonical bytes of a parameter node.
pub open spec fn param_key() -> Seq<u8> {
    seq![0xa1u8, 0x65, 0x50, 0x61, 0x72, 0x61, 0x6d]
}

fn push_zero(buf: &mut Vec<u8>)
    ensures
        final(buf)@ == old(buf)@ + zero_bytes(),
{
    let k: [u8; 5] = [0x64, 0x5a, 0x65, 0x72, 0x6f];
    push_bytes(buf, &k);
}

fn push_succ(buf: &mut Vec<u8>, c: &[u8])
    ensures
        final(buf)@ == old(buf)@ + succ_bytes(c@),
{
    let k: [u8; 6] = [0xa1, 0x64, 0x53, 0x75, 0x63, 0x63];
    push_bytes(buf, &k);
    push_byte_string(buf, c);
    assert(final(buf)@ =~= old(buf)@ + succ_bytes(c@));
}

fn push_max(buf: &mut Vec<u8>, l: &[u8], r: &[u8])
    ensures
        final(buf)@ == old(buf)@ + max_bytes(l@, r@),
{
    let k: [u8; 6] = [0xa1, 0x63, 0x4d, 0x61, 0x78, 0x82];
    push_bytes(buf, &k);
    push_byte_string(buf, l);
    push_byte_string(buf, r);
    assert(final(buf)@ =~= old(buf)@ + max_bytes(l@, r@));
}

fn push_imax(buf: &mut Vec<u8>, l: &[u8], r: &[u8])
    ensures
        final(buf)@ == old(buf)@ + imax_bytes(l@, r@),
{
    let k: [u8; 7] = [0xa1, 0x64, 0x49, 0x4d, 0x61, 0x78, 0x82];
    push_bytes(buf, &k);
    push_byte_string(buf, l);
    push_byte_string(buf, r);
    assert(final(buf)@ =~= old(buf)@ + imax_bytes(l@, r@));
}

fn push_param_key(buf: &mut Vec<u8>)
    ensures
        final(buf)@ == old(buf)@ + param_key(),
{
    let k: [u8; 7] = [0xa1, 0x65, 0x50, 0x61, 0x72, 0x61, 0x6d];
    push_bytes(buf, &k);
}

/// What an anonymous node stands for; children are digests.
pub enum AnonModel {
    Zero,
    Succ(Seq<u8>),
    Max(Seq<u8>, Seq<u8>),
    IMax(Seq<u8>, Seq<u8>),
    Param(nat),
}

/// What a metadata node stands for; children are digests.
pub enum MetaModel {
    Zero,
    Succ(Seq<u8>),
    Max(Seq<u8>, Seq<u8>),
    IMax(Seq<u8>, Seq<u8>),
    Param(NameModel),
}

/// The canonical bytes of an anonymous node.
pub open spec fn anon_bytes(a: AnonModel) -> Seq<u8> {
    match a {
        AnonModel::Zero => zero_bytes(),
        AnonModel::Succ(c) => succ_bytes(c),
        AnonModel::Max(l, r) => max_bytes(l, r),
        AnonModel::IMax(l, r) => imax_bytes(l, r),
        AnonModel::Param(i) => param_key() + head(0, i),
    }
}

/// The canonical bytes of a metadata node.
pub open spec fn meta_bytes(m: MetaModel) -> Seq<u8> {
    match m {
        MetaModel::Zero => zero_bytes(),
        MetaModel::Succ(c) => succ_bytes(c),
        MetaModel::Max(l, r) => max_bytes(l, r),
        MetaModel::IMax(l, r) => imax_bytes(l, r),
        MetaModel::Param(n) => param_key() + name_bytes(n),
    }
}

/// The identifier of an anonymous node.
pub open spec fn anon_key(a: AnonModel) -> Seq<u8> {
    sha3_256_of(anon_bytes(a))
}

/// The identifier of a metadata node.
pub open spec fn meta_key(m: MetaModel) -> Seq<u8> {
    sha3_256_of(meta_bytes(m))
}

/// A node of the anonymous track.
#[derive(Clone, Debug)]
pub enum UnivAnon {
    Zero,
    Succ(UnivAnonCid),
    Max(UnivAnonCid, UnivAnonCid),
    IMax(UnivAnonCid, UnivAnonCid),
    Param(u64),
}

/// A node of the metadata track.
#[derive(Clone, Debug)]
pub enum UnivMeta {
    Zero,
    Succ(UnivMetaCid),
    Max(UnivMetaCid, UnivMetaCid),
    IMax(UnivMetaCid, UnivMetaCid),
    Param(Name),
}

impl View for UnivAnon {
    type V = AnonModel;

    open spec fn view(&self) -> AnonModel {
        match self {
            UnivAnon::Zero => AnonModel::Zero,
            UnivAnon::Succ(c) => AnonModel::Succ(c@),
            UnivAnon::Max(l, r) => AnonModel::Max(l@, r@),
            UnivAnon::IMax(l, r) => AnonModel::IMax(l@, r@),
            UnivAnon::Param(i) => AnonModel::Param(*i as nat),
        }
    }
}

impl View for UnivMeta {
    type V = MetaModel;

    open spec fn view(&self) -> MetaModel {
        match self {
            UnivMeta::Zero => MetaModel::Zero,
            UnivMeta::Succ(c) => MetaModel::Succ(c@),
            UnivMeta::Max(l, r) => MetaModel::Max(l@, r@),
            UnivMeta::IMax(l, r) => MetaModel::IMax(l@, r@),
            UnivMeta::Param(n) => MetaModel::Param(n@),
        }
    }
}

impl UnivAnon {
    /// The canonical bytes of this node.
    pub fn encode(&self) -> (r: Vec<u8>)
        ensures
            r@ == anon_bytes(self@),
    {
        let mut buf: Vec<u8> = Vec::new();
        match self {
            UnivAnon::Zero => push_zero(&mut buf),
            UnivAnon::Succ(c) => push_succ(&mut buf, c.digest.as_slice()),
            UnivAnon::Max(l, r) => push_max(&mut buf, l.digest.as_slice(), r.digest.as_slice()),
            UnivAnon::IMax(l, r) => push_imax(&mut buf, l.digest.as_slice(), r.digest.as_slice()),
            UnivAnon::Param(i) => {
                push_param_key(&mut buf);
                push_head(&mut buf, 0, *i);
            },
        }
        assert(buf@ =~= anon_bytes(self@));
        buf
    }

    /// The identifier of this node: the digest of its canonical bytes. Every
    /// node has a canonical form, so this never fails.
    pub fn cid(&self) -> (r: Result<UnivAnonCid, EnvError>)
        ensures
            r is Ok,
            r->Ok_0@ == anon_key(self@),
            r->Ok_0@.len() == 32,
    {
        let bytes = self.encode();
        Ok(UnivAnonCid { digest: sha3_256(&bytes) })
    }

    /// A node with the same contents.
    pub fn duplicate(&self) -> (r: UnivAnon)
        ensures
            r@ == self@,
    {
        match self {
            UnivAnon::Zero => UnivAnon::Zero,
            UnivAnon::Succ(c) => UnivAnon::Succ(c.duplicate()),
            UnivAnon::Max(l, r) => UnivAnon::Max(l.duplicate(), r.duplicate()),
            UnivAnon::IMax(l, r) => UnivAnon::IMax(l.duplicate(), r.duplicate()),
            UnivAnon::Param(i) => UnivAnon::Param(*i),
        }
    }

    /// Whether the two nodes have the same contents.
    pub fn same(&self, other: &UnivAnon) -> (r: bool)
        ensures
            r == (self@ == other@),
    {
        match (self, other) {
            (UnivAnon::Zero, UnivAnon::Zero) => true,
            (UnivAnon::Succ(a), UnivAnon::Succ(b)) => a.same(b),
            (UnivAnon::Max(a, b), UnivAnon::Max(c, d)) => a.same(c) && b.same(d),
            (UnivAnon::IMax(a, b), UnivAnon::IMax(c, d)) => a.same(c) && b.same(d),
            (UnivAnon::Param(i), UnivAnon::Param(j)) => *i == *j,
            _ => false,
        }
    }

    /// Stores this node under its identifier, which it returns. Fails with
    /// `Integrity`, leaving the store as it was, where the identifier is
    /// already bound to another node.
    pub fn store(self, env: &mut Env) -> (r: Result<UnivAnonCid, EnvError>)
        requires
            old(env).wf(),
        ensures
            final(env).wf(),
            final(env).metas() == old(env).metas(),
            final(env).composites() == old(env).composites(),
            ({
                let k = anon_key(self@);
                if old(env).anons().contains_key(k) && old(env).anons()[k] != self@ {
                    r == Err::<UnivAnonCid, EnvError>(EnvError::Integrity) && final(env).anons()
                        == old(env).anons()
                } else {
                    r is Ok && r->Ok_0@ == k && final(env).anons() == old(env).anons().insert(
                        k,
                        self@,
                    )
                }
            }),
    {
        let cid = match self.cid() {
            Ok(c) => c,
            Err(e) => return Err(e),
        };
        match env.insert_anon(cid.duplicate(), self) {
            Ok(()) => Ok(cid),
            Err(e) => Err(e),
        }
    }
}

impl UnivMeta {
    /// The canonical bytes of this node.
    pub fn encode(&self) -> (r: Vec<u8>)
        ensures
            r@ == meta_bytes(self@),
    {
        let mut buf: Vec<u8> = Vec::new();
        match self {
            UnivMeta::Zero => push_zero(&mut buf),
            UnivMeta::Succ(c) => push_succ(&mut buf, c.digest.as_slice()),
            UnivMeta::Max(l, r) => push_max(&mut buf, l.digest.as_slice(), r.digest.as_slice()),
            UnivMeta::IMax(l, r) => push_imax(&mut buf, l.digest.as_slice(), r.digest.as_slice()),
            UnivMeta::Param(n) => {
                push_param_key(&mut buf);
                n.encode_into(&mut buf);
            },
        }
        assert(buf@ =~= meta_bytes(self@));
        buf
    }

    /// The identifier of this node: the digest of its canonical bytes. Every
    /// node has a canonical form, so this never fails.
    pub fn cid(&self) -> (r: Result<UnivMetaCid, EnvError>)
        ensures
            r is Ok,
            r->Ok_0@ == meta_key(self@),
            r->Ok_0@.len() == 32,
    {
        let bytes = self.encode();
        Ok(UnivMetaCid { digest: sha3_256(&bytes) })
    }

    /// A node with the same contents.
    pub fn duplicate(&self) -> (r: UnivMeta)
        ensures
            r@ == self@,
    {
        match self {
            UnivMeta::Zero => UnivMeta::Zero,
            UnivMeta::Succ(c) => UnivMeta::Succ(c.duplicate()),
            UnivMeta::Max(l, r) => UnivMeta::Max(l.duplicate(), r.duplicate()),
            UnivMeta::IMax(l, r) => UnivMeta::IMax(l.duplicate(), r.duplicate()),
            UnivMeta::Param(n) => UnivMeta::Param(n.duplicate()),
        }
    }

    /// Whether the two nodes have the same contents.
    pub fn same(&self, other: &UnivMeta) -> (r: bool)
        ensures
            r == (self@ == other@),
    {
        match (self, other) {
            (UnivMeta::Zero, UnivMeta::Zero) => true,
            (UnivMeta::Succ(a), UnivMeta::Succ(b)) => a.same(b),
            (UnivMeta::Max(a, b), UnivMeta::Max(c, d)) => a.same(c) && b.same(d),
            (UnivMeta::IMax(a, b), UnivMeta::IMax(c, d)) => a.same(c) && b.same(d),
            (UnivMeta::Param(m), UnivMeta::Param(n)) => m.same(n),
            _ => false,
        }
    }

    /// Stores this node under its identifier, which it returns. Fails with
    /// `Integrity`, leaving the store as it was, where the identifier is
    /// already bound to another node.
    pub fn store(self, env: &mut Env) -> (r: Result<UnivMetaCid, EnvError>)
        requires
            old(env).wf(),
        ensures
            final(env).wf(),
            final(env).anons() == old(env).anons(),
            final(env).composites() == old(env).composites(),
            ({
                let k = meta_key(self@);
                if old(env).metas().contains_key(k) && old(env).metas()[k] != self@ {
                    r == Err::<UnivMetaCid, EnvError>(EnvError::Integrity) && final(env).metas()
                        == old(env).metas()
                } else {
                    r is Ok && r->Ok_0@ == k && final(env).metas() == old(env).metas().insert(
                        k,
                        self@,
                    )
                }
            }),
    {
        let cid = match self.cid() {
            Ok(c) => c,
            Err(e) => return Err(e),
        };
        match env.insert_meta(cid.duplicate(), self) {
            Ok(()) => Ok(cid),
            Err(e) => Err(e),
        }
    }
}

/// Keys a node of the anonymous track by its identifier.
pub open spec fn anon_keying() -> spec_fn(AnonModel) -> Seq<u8> {
    |a: AnonModel| anon_key(a)
}

/// Keys a node of the metadata track by its identifier.
pub open spec fn meta_keying() -> spec_fn(MetaModel) -> Seq<u8> {
    |m: MetaModel| meta_key(m)
}

/// `new` keeps every binding of `old`, and each binding it adds is a member of
/// `added` under its own key.
pub open spec fn grows<V>(
    old: Map<Seq<u8>, V>,
    new: Map<Seq<u8>, V>,
    added: Set<V>,
    key: spec_fn(V) -> Seq<u8>,
) -> bool {
    &&& forall|k: Seq<u8>| #[trigger]
        old.contains_key(k) ==> new.contains_key(k) && new[k] == old[k]
    &&& forall|k: Seq<u8>| #[trigger]
        new.contains_key(k) && !old.contains_key(k) ==> added.contains(new[k]) && key(new[k]) == k
}

/// No key of a node in `nodes` is bound in `m` to another node, and no two
/// nodes in `nodes` share a key.
pub open spec fn agrees<V>(m: Map<Seq<u8>, V>, nodes: Set<V>, key: spec_fn(V) -> Seq<u8>) -> bool {
    &&& forall|v: V| #[trigger]
        nodes.contains(v) && m.contains_key(key(v)) ==> m[key(v)] == v
    &&& forall|v: V, w: V| #[trigger]
        nodes.contains(v) && #[trigger] nodes.contains(w) && key(v) == key(w) ==> v == w
}

/// Every node in `nodes` is bound in `m` under its key.
pub open spec fn holds<V>(m: Map<Seq<u8>, V>, nodes: Set<V>, key: spec_fn(V) -> Seq<u8>) -> bool {
    forall|v: V| #[trigger] nodes.contains(v) ==> m.contains_key(key(v)) && m[key(v)] == v
}

proof fn lemma_agrees_subset<V>(m: Map<Seq<u8>, V>, small: Set<V>, big: Set<V>, key: spec_fn(V) -> Seq<u8>)
    requires
        agrees(m, big, key),
        small.subset_of(big),
    ensures
        agrees(m, small, key),
{
    assert forall|v: V, w: V| #[trigger]
        small.contains(v) && #[trigger] small.contains(w) && key(v) == key(w) implies v == w by {
        assert(big.contains(v) && big.contains(w));
    }
}

proof fn lemma_agrees_after<V>(
    m0: Map<Seq<u8>, V>,
    m1: Map<Seq<u8>, V>,
    added: Set<V>,
    nodes: Set<V>,
    key: spec_fn(V) -> Seq<u8>,
)
    requires
        agrees(m0, nodes, key),
        grows(m0, m1, added, key),
        added.subset_of(nodes),
    ensures
        agrees(m1, nodes, key),
{
    assert forall|v: V| #[trigger] nodes.contains(v) && m1.contains_key(key(v)) implies m1[key(v)]
        == v by {
        let k = key(v);
        if !m0.contains_key(k) {
            let w = m1[k];
            assert(added.contains(w) && key(w) == k);
            assert(nodes.contains(w));
        }
    }
}

proof fn lemma_grows_trans<V>(
    m0: Map<Seq<u8>, V>,
    m1: Map<Seq<u8>, V>,
    m2: Map<Seq<u8>, V>,
    a1: Set<V>,
    a2: Set<V>,
    all: Set<V>,
    key: spec_fn(V) -> Seq<u8>,
)
    requires
        grows(m0, m1, a1, key),
        grows(m1, m2, a2, key),
        a1.subset_of(all),
        a2.subset_of(all),
    ensures
        grows(m0, m2, all, key),
{
    assert forall|k: Seq<u8>| #[trigger] m2.contains_key(k) && !m0.contains_key(k) implies all.contains(
        m2[k],
    ) && key(m2[k]) == k by {
        if m1.contains_key(k) {
            assert(m2[k] == m1[k]);
        }
    }
}

proof fn lemma_holds_after<V>(
    m0: Map<Seq<u8>, V>,
    m1: Map<Seq<u8>, V>,
    added: Set<V>,
    nodes: Set<V>,
    key: spec_fn(V) -> Seq<u8>,
)
    requires
        holds(m0, nodes, key),
        grows(m0, m1, added, key),
    ensures
        holds(m1, nodes, key),
{
    assert forall|v: V| #[trigger] nodes.contains(v) implies m1.contains_key(key(v)) && m1[key(v)]
        == v by {
        assert(m0.contains_key(key(v)));
    }
}

proof fn lemma_holds_agrees<V>(
    m0: Map<Seq<u8>, V>,
    m1: Map<Seq<u8>, V>,
    added: Set<V>,
    nodes: Set<V>,
    key: spec_fn(V) -> Seq<u8>,
)
    requires
        holds(m1, nodes, key),
        grows(m0, m1, added, key),
    ensures
        agrees(m0, nodes, key),
{
    assert forall|v: V| #[trigger] nodes.contains(v) && m0.contains_key(key(v)) implies m0[key(v)]
        == v by {
        assert(m1.contains_key(key(v)));
    }
    assert forall|v: V, w: V| #[trigger]
        nodes.contains(v) && #[trigger] nodes.contains(w) && key(v) == key(w) implies v == w by {
        assert(m1[key(v)] == v);
        assert(m1[key(w)] == w);
    }
}

proof fn lemma_holds_subset<V>(m: Map<Seq<u8>, V>, small: Set<V>, big: Set<V>, key: spec_fn(V) -> Seq<u8>)
    requires
        holds(m, big, key),
        small.subset_of(big),
    ensures
        holds(m, small, key),
{
    assert forall|v: V| #[trigger] small.contains(v) implies m.contains_key(key(v)) && m[key(v)] == v by {
        assert(big.contains(v));
    }
}

proof fn lemma_holds_join<V>(m: Map<Seq<u8>, V>, a: Set<V>, b: Set<V>, n: V, key: spec_fn(V) -> Seq<u8>)
    requires
        holds(m, a, key),
        holds(m, b, key),
        holds(m, set![n], key),
    ensures
        holds(m, a.union(b).insert(n), key),
        holds(m, a.insert(n), key),
{
    assert(set![n].contains(n));
}

/// A universe level.
#[derive(Debug)]
pub enum Univ {
    Zero,
    Succ(Box<Univ>),
    Max(Box<Univ>, Box<Univ>),
    IMax(Box<Univ>, Box<Univ>),
    Param(Name, u64),
}

/// The anonymous projection of the root of `t`: structure and index only, its
/// children named by their anonymous identifiers.
pub open spec fn anon_of(t: Univ) -> AnonModel
    decreases t,
{
    match t {
        Univ::Zero => AnonModel::Zero,
        Univ::Succ(x) => AnonModel::Succ(anon_key(anon_of(*x))),
        Univ::Max(l, r) => AnonModel::Max(anon_key(anon_of(*l)), anon_key(anon_of(*r))),
        Univ::IMax(l, r) => AnonModel::IMax(anon_key(anon_of(*l)), anon_key(anon_of(*r))),
        Univ::Param(_, i) => AnonModel::Param(i as nat),
    }
}

/// The metadata projection of the root of `t`: names only, its children named
/// by their metadata identifiers.
pub open spec fn meta_of(t: Univ) -> MetaModel
    decreases t,
{
    match t {
        Univ::Zero => MetaModel::Zero,
        Univ::Succ(x) => MetaModel::Succ(meta_key(meta_of(*x))),
        Univ::Max(l, r) => MetaModel::Max(meta_key(meta_of(*l)), meta_key(meta_of(*r))),
        Univ::IMax(l, r) => MetaModel::IMax(meta_key(meta_of(*l)), meta_key(meta_of(*r))),
        Univ::Param(n, _) => MetaModel::Param(n@),
    }
}

/// The anonymous projections of every subterm of `t`.
pub open spec fn anon_nodes(t: Univ) -> Set<AnonModel>
    decreases t,
{
    match t {
        Univ::Succ(x) => anon_nodes(*x).insert(anon_of(t)),
        Univ::Max(l, r) => anon_nodes(*l).union(anon_nodes(*r)).insert(anon_of(t)),
        Univ::IMax(l, r) => anon_nodes(*l).union(anon_nodes(*r)).insert(anon_of(t)),
        _ => set![anon_of(t)],
    }
}

/// The metadata projections of every subterm of `t`.
pub open spec fn meta_nodes(t: Univ) -> Set<MetaModel>
    decreases t,
{
    match t {
        Univ::Succ(x) => meta_nodes(*x).insert(meta_of(t)),
        Univ::Max(l, r) => meta_nodes(*l).union(meta_nodes(*r)).insert(meta_of(t)),
        Univ::IMax(l, r) => meta_nodes(*l).union(meta_nodes(*r)).insert(meta_of(t)),
        _ => set![meta_of(t)],
    }
}

/// The identifier of `t`: the identifiers of its two projections.
pub open spec fn univ_key(t: Univ) -> (Seq<u8>, Seq<u8>) {
    (anon_key(anon_of(t)), meta_key(meta_of(t)))
}

/// Storing `t` in `env` meets no binding that contradicts it: success is owed.
pub open spec fn fits(env: Env, t: Univ) -> bool {
    agrees(env.anons(), anon_nodes(t), anon_keying()) && agrees(
        env.metas(),
        meta_nodes(t),
        meta_keying(),
    )
}

/// Every projection of every subterm of `t` is bound in `env`.
pub open spec fn stored(env: Env, t: Univ) -> bool {
    holds(env.anons(), anon_nodes(t), anon_keying()) && holds(
        env.metas(),
        meta_nodes(t),
        meta_keying(),
    )
}

/// Stores one node on each track and pairs their identifiers.
fn store_pair(
    anon: UnivAnon,
    meta: UnivMeta,
    env: &mut Env,
    Ghost(an): Ghost<Set<AnonModel>>,
    Ghost(mn): Ghost<Set<MetaModel>>,
) -> (r: Result<UnivCid, EnvError>)
    requires
        old(env).wf(),
        an.contains(anon@),
        mn.contains(meta@),
    ensures
        final(env).wf(),
        final(env).composites() == old(env).composites(),
        grows(old(env).anons(), final(env).anons(), an, anon_keying()),
        grows(old(env).metas(), final(env).metas(), mn, meta_keying()),
        agrees(old(env).anons(), an, anon_keying()) && agrees(old(env).metas(), mn, meta_keying())
            ==> r is Ok,
        r is Ok ==> r->Ok_0@ == (anon_key(anon@), meta_key(meta@)) && holds(
            final(env).anons(),
            set![anon@],
            anon_keying(),
        ) && holds(final(env).metas(), set![meta@], meta_keying()),
        r is Err ==> r->Err_0 == EnvError::Integrity,
        holds(old(env).anons(), set![anon@], anon_keying()) && holds(
            old(env).metas(),
            set![meta@],
            meta_keying(),
        ) ==> final(env).anons() == old(env).anons() && final(env).metas() == old(env).metas(),
{
    let ghost a = anon@;
    let ghost m = meta@;
    let ghost e0 = *env;
    assert(set![a].contains(a));
    assert(set![m].contains(m));
    let ac = match anon.store(env) {
        Ok(c) => c,
        Err(e) => {
            return Err(e);
        },
    };
    proof {
        if e0.anons().contains_key(anon_key(a)) && e0.anons()[anon_key(a)] == a {
            assert(e0.anons().insert(anon_key(a), a) =~= e0.anons());
        }
    }
    let mc = match meta.store(env) {
        Ok(c) => c,
        Err(e) => {
            return Err(e);
        },
    };
    proof {
        if e0.metas().contains_key(meta_key(m)) && e0.metas()[meta_key(m)] == m {
            assert(e0.metas().insert(meta_key(m), m) =~= e0.metas());
        }
    }
    Ok(UnivCid { anon: ac, meta: mc })
}

impl Univ {
    /// Stores the projections of every subterm, children before parents, and
    /// returns the identifier of the whole. Fails with `Integrity` exactly
    /// where some projection's identifier is already bound to another node (or
    /// two projections share an identifier); bindings are only ever added,
    /// each under its node's own identifier. Where the term is already stored,
    /// the store is left as it was.
    pub fn cid(&self, env: &mut Env) -> (r: Result<UnivCid, EnvError>)
        requires
            old(env).wf(),
        ensures
            final(env).wf(),
            final(env).composites() == old(env).composites(),
            grows(old(env).anons(), final(env).anons(), anon_nodes(*self), anon_keying()),
            grows(old(env).metas(), final(env).metas(), meta_nodes(*self), meta_keying()),
            r is Ok <==> fits(*old(env), *self),
            r is Ok ==> r->Ok_0@ == univ_key(*self) && stored(*final(env), *self),
            r is Err ==> r->Err_0 == EnvError::Integrity,
            stored(*old(env), *self) ==> final(env).anons() == old(env).anons() && final(env).metas() == old(env).metas(),
        decreases self,
    {
        let ghost e0 = *env;
        let ghost an = anon_nodes(*self);
        let ghost mn = meta_nodes(*self);
        let ghost ak = anon_keying();
        let ghost mk = meta_keying();
        let r = match self {
            Univ::Zero => store_pair(UnivAnon::Zero, UnivMeta::Zero, env, Ghost(an), Ghost(mn)),
            Univ::Param(n, i) => store_pair(
                UnivAnon::Param(*i),
                UnivMeta::Param(n.duplicate()),
                env,
                Ghost(an),
                Ghost(mn),
            ),
            Univ::Succ(x) => {
                proof {
                    if fits(e0, *self) {
                        lemma_agrees_subset(e0.anons(), anon_nodes(**x), an, ak);
                        lemma_agrees_subset(e0.metas(), meta_nodes(**x), mn, mk);
                    }
                    if stored(e0, *self) {
                        lemma_holds_subset(e0.anons(), anon_nodes(**x), an, ak);
                        lemma_holds_subset(e0.metas(), meta_nodes(**x), mn, mk);
                    }
                }
                let xc = match x.cid(env) {
                    Ok(c) => c,
                    Err(e) => {
                        proof {
                            lemma_grows_trans(e0.anons(), env.anons(), env.anons(), anon_nodes(**x), Set::empty(), an, ak);
                            lemma_grows_trans(e0.metas(), env.metas(), env.metas(), meta_nodes(**x), Set::empty(), mn, mk);
                        }
                        return Err(e);
                    },
                };
                let ghost e1 = *env;
                proof {
                    if fits(e0, *self) {
                        lemma_agrees_after(e0.anons(), e1.anons(), anon_nodes(**x), an, ak);
                        lemma_agrees_after(e0.metas(), e1.metas(), meta_nodes(**x), mn, mk);
                    }
                }
                let r = store_pair(
                    UnivAnon::Succ(xc.anon),
                    UnivMeta::Succ(xc.meta),
                    env,
                    Ghost(an),
                    Ghost(mn),
                );
                proof {
                    lemma_grows_trans(e0.anons(), e1.anons(), env.anons(), anon_nodes(**x), an, an, ak);
                    lemma_grows_trans(e0.metas(), e1.metas(), env.metas(), meta_nodes(**x), mn, mn, mk);
                    if r is Ok {
                        lemma_holds_after(e1.anons(), env.anons(), an, anon_nodes(**x), ak);
                        lemma_holds_after(e1.metas(), env.metas(), mn, meta_nodes(**x), mk);
                        lemma_holds_join(env.anons(), anon_nodes(**x), anon_nodes(**x), anon_of(*self), ak);
                        lemma_holds_join(env.metas(), meta_nodes(**x), meta_nodes(**x), meta_of(*self), mk);
                    }
                }
                r
            },
            Univ::Max(l, rr) | Univ::IMax(l, rr) => {
                proof {
                    if fits(e0, *self) {
                        lemma_agrees_subset(e0.anons(), anon_nodes(**l), an, ak);
                        lemma_agrees_subset(e0.metas(), meta_nodes(**l), mn, mk);
                    }
                    if stored(e0, *self) {
                        lemma_holds_subset(e0.anons(), anon_nodes(**l), an, ak);
                        lemma_holds_subset(e0.metas(), meta_nodes(**l), mn, mk);
                    }
                }
                let lc = match l.cid(env) {
                    Ok(c) => c,
                    Err(e) => {
                        proof {
                            lemma_grows_trans(e0.anons(), env.anons(), env.anons(), anon_nodes(**l), Set::empty(), an, ak);
                            lemma_grows_trans(e0.metas(), env.metas(), env.metas(), meta_nodes(**l), Set::empty(), mn, mk);
                        }
                        return Err(e);
                    },
                };
                let ghost e1 = *env;
                proof {
                    if fits(e0, *self) {
                        lemma_agrees_after(e0.anons(), e1.anons(), anon_nodes(**l), an, ak);
                        lemma_agrees_after(e0.metas(), e1.metas(), meta_nodes(**l), mn, mk);
                        lemma_agrees_subset(e1.anons(), anon_nodes(**rr), an, ak);
                        lemma_agrees_subset(e1.metas(), meta_nodes(**rr), mn, mk);
                    }
                    if stored(e0, *self) {
                        lemma_holds_subset(e0.anons(), anon_nodes(**rr), an, ak);
                        lemma_holds_subset(e0.metas(), meta_nodes(**rr), mn, mk);
                        lemma_holds_after(e0.anons(), e1.anons(), anon_nodes(**l), anon_nodes(**rr), ak);
                        lemma_holds_after(e0.metas(), e1.metas(), meta_nodes(**l), meta_nodes(**rr), mk);
                    }
                }
                let rc = match rr.cid(env) {
                    Ok(c) => c,
                    Err(e) => {
                        proof {
                            lemma_grows_trans(e0.anons(), e1.anons(), env.anons(), anon_nodes(**l), anon_nodes(**rr), an, ak);
                            lemma_grows_trans(e0.metas(), e1.metas(), env.metas(), meta_nodes(**l), meta_nodes(**rr), mn, mk);
                        }
                        return Err(e);
                    },
                };
                let ghost e2 = *env;
                proof {
                    lemma_grows_trans(e0.anons(), e1.anons(), e2.anons(), anon_nodes(**l), anon_nodes(**rr), an, ak);
                    lemma_grows_trans(e0.metas(), e1.metas(), e2.metas(), meta_nodes(**l), meta_nodes(**rr), mn, mk);
                    if fits(e0, *self) {
                        lemma_agrees_after(e0.anons(), e2.anons(), an, an, ak);
                        lemma_agrees_after(e0.metas(), e2.metas(), mn, mn, mk);
                    }
                    lemma_holds_after(e1.anons(), e2.anons(), anon_nodes(**rr), anon_nodes(**l), ak);
                    lemma_holds_after(e1.metas(), e2.metas(), meta_nodes(**rr), meta_nodes(**l), mk);
                }
                let (a, m) = match self {
                    Univ::Max(..) => (UnivAnon::Max(lc.anon, rc.anon), UnivMeta::Max(lc.meta, rc.meta)),
                    _ => (UnivAnon::IMax(lc.anon, rc.anon), UnivMeta::IMax(lc.meta, rc.meta)),
                };
                let r = store_pair(a, m, env, Ghost(an), Ghost(mn));
                proof {
                    lemma_grows_trans(e0.anons(), e2.anons(), env.anons(), an, an, an, ak);
                    lemma_grows_trans(e0.metas(), e2.metas(), env.metas(), mn, mn, mn, mk);
                    if r is Ok {
                        lemma_holds_after(e2.anons(), env.anons(), an, anon_nodes(**l), ak);
                        lemma_holds_after(e2.metas(), env.metas(), mn, meta_nodes(**l), mk);
                        lemma_holds_after(e2.anons(), env.anons(), an, anon_nodes(**rr), ak);
                        lemma_holds_after(e2.metas(), env.metas(), mn, meta_nodes(**rr), mk);
                        lemma_holds_join(env.anons(), anon_nodes(**l), anon_nodes(**rr), anon_of(*self), ak);
                        lemma_holds_join(env.metas(), meta_nodes(**l), meta_nodes(**rr), meta_of(*self), mk);
                    }
                }
                r
            },
        };
        proof {
            if r is Ok {
                lemma_holds_agrees(e0.anons(), env.anons(), an, an, ak);
                lemma_holds_agrees(e0.metas(), env.metas(), mn, mn, mk);
            }
        }
        r
    }

    /// Stores the term as [`Univ::cid`] does, records its identifier among the
    /// stored levels, and returns it.
    pub fn store(self, env: &mut Env) -> (r: Result<UnivCid, EnvError>)
        requires
            old(env).wf(),
        ensures
            final(env).wf(),
            grows(old(env).anons(), final(env).anons(), anon_nodes(self), anon_keying()),
            grows(old(env).metas(), final(env).metas(), meta_nodes(self), meta_keying()),
            r is Ok <==> fits(*old(env), self),
            r is Ok ==> r->Ok_0@ == univ_key(self) && stored(*final(env), self)
                && final(env).composites() == old(env).composites().insert(univ_key(self)),
            r is Err ==> r->Err_0 == EnvError::Integrity && final(env).composites() == old(env).composites(),
            stored(*old(env), self) ==> final(env).anons() == old(env).anons() && final(env).metas() == old(env).metas(),
    {
        let cid = match self.cid(env) {
            Ok(c) => c,
            Err(e) => return Err(e),
        };
        env.insert_univ(UnivCid { anon: cid.anon.duplicate(), meta: cid.meta.duplicate() });
        Ok(cid)
    }
}

/// `a` and `b` have the same constructors and the same parameter indices
/// throughout; only their names may differ.
pub open spec fn same_skeleton(a: Univ, b: Univ) -> bool
    decreases a,
{
    match (a, b) {
        (Univ::Zero, Univ::Zero) => true,
        (Univ::Succ(x), Univ::Succ(y)) => same_skeleton(*x, *y),
        (Univ::Max(l1, r1), Univ::Max(l2, r2)) => same_skeleton(*l1, *l2) && same_skeleton(*r1, *r2),
        (Univ::IMax(l1, r1), Univ::IMax(l2, r2)) => same_skeleton(*l1, *l2) && same_skeleton(
            *r1,
            *r2,
        ),
        (Univ::Param(_, i), Univ::Param(_, j)) => i == j,
        _ => false,
    }
}

/// Names never reach the anonymous track: two terms that differ only in their
/// names have the same anonymous projection, hence the same anonymous
/// identifier.
pub proof fn lemma_names_stay_out_of_anon(a: Univ, b: Univ)
    requires
        same_skeleton(a, b),
    ensures
        anon_of(a) == anon_of(b),
        univ_key(a).0 == univ_key(b).0,
    decreases a,
{
    match (a, b) {
        (Univ::Succ(x), Univ::Succ(y)) => lemma_names_stay_out_of_anon(*x, *y),
        (Univ::Max(l1, r1), Univ::Max(l2, r2)) => {
            lemma_names_stay_out_of_anon(*l1, *l2);
            lemma_names_stay_out_of_anon(*r1, *r2);
        },
        (Univ::IMax(l1, r1), Univ::IMax(l2, r2)) => {
            lemma_names_stay_out_of_anon(*l1, *l2);
            lemma_names_stay_out_of_anon(*r1, *r2);
        },
        _ => {},
    }
}

/// Storing is idempotent: once a term is stored it fits the store, so storing
/// it again succeeds, returns the same identifier and leaves the store as it
/// was (see the contract of [`Univ::cid`]).
pub proof fn lemma_store_again(env: Env, t: Univ)
    requires
        stored(env, t),
    ensures
        fits(env, t),
{
    lemma_holds_agrees(env.anons(), env.anons(), Set::empty(), anon_nodes(t), anon_keying());
    lemma_holds_agrees(env.metas(), env.metas(), Set::empty(), meta_nodes(t), meta_keying());
}

/// An anonymous node as the store makes them: 32-byte child digests and an
/// index that fits in `u64`.
pub open spec fn anon_wf(a: AnonModel) -> bool {
    match a {
        AnonModel::Zero => true,
        AnonModel::Succ(c) => c.len() == 32,
        AnonModel::Max(l, r) => l.len() == 32 && r.len() == 32,
        AnonModel::IMax(l, r) => l.len() == 32 && r.len() == 32,
        AnonModel::Param(i) => i < 0x1_0000_0000_0000_0000,
    }
}

/// The canonical encoding of anonymous nodes is injective: distinct nodes,
/// such as the constant and a successor, or a maximum and the one with its
/// arguments swapped, have distinct bytes, so only a digest collision could
/// give them one identifier.
pub proof fn lemma_anon_bytes_injective(a: AnonModel, b: AnonModel)
    requires
        anon_wf(a),
        anon_wf(b),
        anon_bytes(a) == anon_bytes(b),
    ensures
        a == b,
{
    let x = anon_bytes(a);
    assert(head(2, 32) =~= seq![0x58u8, 0x20]) by {
        assert(be_bytes(32, 1) =~= seq![32u8]) by {
            assert(be_bytes(0, 0) =~= Seq::<u8>::empty());
        }
    }
    match a {
        AnonModel::Zero => {
            assert(x[0] == 0x64u8);
        },
        AnonModel::Succ(c) => {
            assert(x[0] == 0xa1u8 && x[1] == 0x64u8 && x[2] == 0x53u8);
            assert(x.subrange(8, 40) =~= c);
        },
        AnonModel::Max(l, r) => {
            assert(x[0] == 0xa1u8 && x[1] == 0x63u8);
            assert(x.subrange(8, 40) =~= l);
            assert(x.subrange(42, 74) =~= r);
        },
        AnonModel::IMax(l, r) => {
            assert(x[0] == 0xa1u8 && x[1] == 0x64u8 && x[2] == 0x49u8);
            assert(x.subrange(9, 41) =~= l);
            assert(x.subrange(43, 75) =~= r);
        },
        AnonModel::Param(i) => {
            assert(x[0] == 0xa1u8 && x[1] == 0x65u8);
            assert(x.subrange(7, x.len() as int) =~= head(0, i));
        },
    }
    let y = anon_bytes(b);
    match b {
        AnonModel::Zero => {
            assert(y[0] == 0x64u8);
        },
        AnonModel::Succ(c) => {
            assert(y[0] == 0xa1u8 && y[1] == 0x64u8 && y[2] == 0x53u8);
            assert(y.subrange(8, 40) =~= c);
        },
        AnonModel::Max(l, r) => {
            assert(y[0] == 0xa1u8 && y[1] == 0x63u8);
            assert(y.subrange(8, 40) =~= l);
            assert(y.subrange(42, 74) =~= r);
        },
        AnonModel::IMax(l, r) => {
            assert(y[0] == 0xa1u8 && y[1] == 0x64u8 && y[2] == 0x49u8);
            assert(y.subrange(9, 41) =~= l);
            assert(y.subrange(43, 75) =~= r);
        },
        AnonModel::Param(j) => {
            assert(y[0] == 0xa1u8 && y[1] == 0x65u8);
            assert(y.subrange(7, y.len() as int) =~= head(0, j));
        },
    }
    if let (AnonModel::Param(i), AnonModel::Param(j)) = (a, b) {
        lemma_head_injective(0, i, j);
    }
}

} // verus!
