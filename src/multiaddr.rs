//! Addresses of peers: a sequence of (protocol code, value) parts, of which one
//! may name the peer itself.
use vstd::prelude::*;

verus! {

/// Protocol code of the part that carries a peer id.
pub const P2P_CODE: u32 = 421;

/// Equality of two byte vectors, element by element.
pub fn bytes_equal(a: &Vec<u8>, b: &Vec<u8>) -> (r: bool)
    ensures
        r == (a@ == b@),
{
    if a.len() != b.len() {
        return false;
    }
    let mut i: usize = 0;
    while i < a.len()
        invariant
            a@.len() == b@.len(),
            0 <= i <= a@.len(),
            forall|j: int| 0 <= j < i ==> a@[j] == b@[j],
        decreases a@.len() - i,
    {
        if a[i] != b[i] {
            return false;
        }
        i = i + 1;
    }
    assert(a@ =~= b@);
    true
}

/// A copy of a byte vector.
pub fn bytes_copy(a: &Vec<u8>) -> (r: Vec<u8>)
    ensures
        r@ == a@,
{
    let mut r: Vec<u8> = Vec::new();
    let mut i: usize = 0;
    while i < a.len()
        invariant
            0 <= i <= a@.len(),
            r@ == a@.take(i as int),
        decreases a@.len() - i,
    {
        r.push(a[i]);
        i = i + 1;
        assert(r@ =~= a@.take(i as int));
    }
    assert(a@.take(a@.len() as int) =~= a@);
    r
}

/// One part of an address, such as `/tcp/443` or `/p2p/<id>`.
#[derive(Debug)]
pub struct AddrPart {
    pub code: u32,
    pub value: Vec<u8>,
}

impl View for AddrPart {
    type V = (u32, Seq<u8>);

    open spec fn view(&self) -> (u32, Seq<u8>) {
        (self.code, self.value@)
    }
}

impl Clone for AddrPart {
    fn clone(&self) -> (r: Self)
        ensures
            r@ == self@,
    {
        AddrPart { code: self.code, value: bytes_copy(&self.value) }
    }
}

/// A self-describing, path-like address.
#[derive(Debug)]
pub struct Multiaddr {
    pub parts: Vec<AddrPart>,
}

impl View for Multiaddr {
    type V = Seq<(u32, Seq<u8>)>;

    open spec fn view(&self) -> Seq<(u32, Seq<u8>)> {
        self.parts@.map_values(|p: AddrPart| p@)
    }
}

/// The peer id that an address names: the value of its first peer-id part.
pub open spec fn peer_id_of(a: Seq<(u32, Seq<u8>)>) -> Option<Seq<u8>>
    decreases a.len(),
{
    if a.len() == 0 {
        None
    } else if a[0].0 == P2P_CODE {
        Some(a[0].1)
    } else {
        peer_id_of(a.skip(1))
    }
}

proof fn lemma_peer_id_step(a: Seq<(u32, Seq<u8>)>, i: int)
    requires
        0 <= i < a.len(),
        a[i].0 != P2P_CODE,
    ensures
        peer_id_of(a.skip(i)) == peer_id_of(a.skip(i + 1)),
{
    assert(a.skip(i).skip(1) =~= a.skip(i + 1));
}

impl Clone for Multiaddr {
    fn clone(&self) -> (r: Self)
        ensures
            r@ == self@,
    {
        let mut parts: Vec<AddrPart> = Vec::new();
        let mut i: usize = 0;
        while i < self.parts.len()
            invariant
                0 <= i <= self.parts@.len(),
                parts@.len() == i,
                forall|j: int| 0 <= j < i ==> parts@[j]@ == self.parts@[j]@,
            decreases self.parts@.len() - i,
        {
            parts.push(self.parts[i].clone());
            i = i + 1;
        }
        let r = Multiaddr { parts };
        assert(r@ =~= self@);
        r
    }
}

impl Multiaddr {
    pub fn new() -> (r: Multiaddr)
        ensures
            r@ == Seq::<(u32, Seq<u8>)>::empty(),
    {
        let r = Multiaddr { parts: Vec::new() };
        assert(r@ =~= Seq::<(u32, Seq<u8>)>::empty());
        r
    }

    /// Appends a part at the end.
    pub fn push(&mut self, part: AddrPart)
        ensures
            final(self)@ == old(self)@.push(part@),
    {
        self.parts.push(part);
        assert(final(self)@ =~= old(self)@.push(part@));
    }

    /// Whether two addresses have the same parts.
    pub fn same_as(&self, other: &Multiaddr) -> (r: bool)
        ensures
            r == (self@ == other@),
    {
        if self.parts.len() != other.parts.len() {
            assert(self@.len() != other@.len());
            return false;
        }
        let mut i: usize = 0;
        while i < self.parts.len()
            invariant
                self.parts@.len() == other.parts@.len(),
                0 <= i <= self.parts@.len(),
                forall|j: int| 0 <= j < i ==> self@[j] == other@[j],
            decreases self.parts@.len() - i,
        {
            let a = &self.parts[i];
            let b = &other.parts[i];
            if a.code != b.code || !bytes_equal(&a.value, &b.value) {
                assert(self@[i as int] != other@[i as int]);
                return false;
            }
            i = i + 1;
        }
        assert(self@ =~= other@);
        true
    }

    /// The peer id that this address names, if any.
    pub fn peer_id(&self) -> (r: Option<Vec<u8>>)
        ensures
            r.is_some() == peer_id_of(self@).is_some(),
            r.is_some() ==> r.unwrap()@ == peer_id_of(self@).unwrap(),
    {
        let mut i: usize = 0;
        assert(self@.skip(0) =~= self@);
        while i < self.parts.len()
            invariant
                0 <= i <= self.parts@.len(),
                peer_id_of(self@) == peer_id_of(self@.skip(i as int)),
            decreases self.parts@.len() - i,
        {
            if self.parts[i].code == P2P_CODE {
                return Some(bytes_copy(&self.parts[i].value));
            }
            proof {
                lemma_peer_id_step(self@, i as int);
            }
            i = i + 1;
        }
        None
    }
}

} // verus!
