//! The map of I/O ports in use: one bit per port, and the port ranges that
//! drivers hold.
use vstd::prelude::*;

verus! {

/// The number of I/O ports.
pub const NUM_PORTS: usize = 0x1_0000;

/// Bit `b` of the byte `w`.
pub open spec fn byte_bit(w: u8, b: int) -> bool {
    (w >> (b as u8)) & 1u8 == 1u8
}

/// Whether port `i` is in use in the map `m`.
pub open spec fn port_used(m: Seq<u8>, i: int) -> bool {
    byte_bit(m[i / 8], i % 8)
}

/// No port of `[start, end)` is in use.
pub open spec fn range_free(m: Seq<u8>, start: int, end: int) -> bool {
    forall|i: int| start <= i < end ==> !#[trigger] port_used(m, i)
}

/// `m2` is `m` with the ports of `[start, end)` marked as in use.
pub open spec fn marked(m: Seq<u8>, m2: Seq<u8>, start: int, end: int) -> bool {
    &&& m2.len() == m.len()
    &&& forall|i: int|
        0 <= i < m.len() * 8 ==> #[trigger] port_used(m2, i) == (port_used(m, i) || start <= i
            < end)
}

/// Claimed ports are in use: after a claim of a non-empty range, a claim of any range that
/// meets it fails.
pub proof fn lemma_claimed_not_free(m: Seq<u8>, m2: Seq<u8>, start: int, end: int, s2: int, e2: int)
    requires
        marked(m, m2, start, end),
        0 <= start < end <= m.len() * 8,
        s2 < e2,
        s2 < end,
        start < e2,
    ensures
        !range_free(m2, s2, e2),
{
    let i = if s2 > start { s2 } else { start };
    assert(port_used(m2, i));
}

/// The map after releasing port `i` the way `dealloc` does: the byte of port `i` loses the
/// bits of the number `i % 8`.
pub open spec fn dealloc_step(m: Seq<u8>, i: int) -> Seq<u8> {
    m.update(i / 8, m[i / 8] & !((i % 8) as u8))
}

/// The map after `dealloc_step` for each port of `[start, end)` in turn.
pub open spec fn dealloc_steps(m: Seq<u8>, start: int, end: int) -> Seq<u8>
    decreases end - start,
{
    if end <= start {
        m
    } else {
        dealloc_step(dealloc_steps(m, start, end - 1), end - 1)
    }
}

proof fn lemma_byte_set(w: u8, b: u8, c: u8)
    requires
        b < 8,
        c < 8,
    ensures
        byte_bit(w | (1u8 << b), c as int) == (c == b || byte_bit(w, c as int)),
        (w & (1u8 << b) != 0) == byte_bit(w, b as int),
{
    assert((((w | (1u8 << b)) >> c) & 1u8 == 1u8) == (c == b || ((w >> c) & 1u8 == 1u8)) && (w & (1u8
        << b) != 0) == ((w >> b) & 1u8 == 1u8)) by (bit_vector)
        requires
            b < 8,
            c < 8,
    ;
}

/// Shift and mask identities on port numbers.
proof fn lemma_port_bits(x: u16)
    by (bit_vector)
    ensures
        x >> 3u16 == x / 8,
        x & 7u16 == x % 8,
        (x as u8) & 7u8 == ((x & 7u16) as u8),
{
}

/// Port `i` lies in the range of `length` ports from `start`, given as `(start, length)`.
pub open spec fn in_range(p: (u16, u16), i: int) -> bool {
    p.0 <= i < p.0 + p.1
}

/// The map of ports in use.
pub struct PortMap {
    map: Vec<u8>,
}

impl PortMap {
    /// The map holds one bit for each port.
    pub closed spec fn wf(&self) -> bool {
        self.map@.len() == NUM_PORTS / 8
    }

    /// The bytes of the map.
    pub closed spec fn bytes(&self) -> Seq<u8> {
        self.map@
    }

    /// A map with no port in use.
    pub fn new() -> (r: Self)
        ensures
            r.wf(),
            forall|i: int| 0 <= i < NUM_PORTS / 8 ==> r.bytes()[i] == 0,
    {
        let mut map: Vec<u8> = Vec::new();
        let mut k: usize = 0;
        while k < NUM_PORTS / 8
            invariant
                k <= NUM_PORTS / 8,
                map@.len() == k,
                forall|i: int| 0 <= i < k ==> map@[i] == 0,
            decreases NUM_PORTS / 8 - k,
        {
            map.push(0);
            k = k + 1;
        }
        PortMap { map }
    }
}

/// Claims the ports of `[start, start + length)` in `map` if none of them is in use, and says
/// whether it did.
pub fn try_alloc(start: u16, length: u16, map: &mut PortMap) -> (r: bool)
    requires
        old(map).wf(),
        start + length <= u16::MAX,
    ensures
        final(map).wf(),
        r == range_free(old(map).bytes(), start as int, start + length),
        r ==> marked(old(map).bytes(), final(map).bytes(), start as int, start + length),
        !r ==> final(map).bytes() == old(map).bytes(),
{
    let end: u16 = start + length;
    let mut i: u16 = start;
    while i < end
        invariant
            start <= i <= end,
            end == start + length,
            map.wf(),
            map.bytes() == old(map).bytes(),
            range_free(map.bytes(), start as int, i as int),
        decreases end - i,
    {
        proof {
            lemma_port_bits(i);
        }
        let b = (i & 7) as u8;
        let w = map.map[(i >> 3) as usize];
        proof {
            lemma_byte_set(w, b, b);
        }
        if w & (1u8 << b) != 0 {
            assert(port_used(old(map).bytes(), i as int));
            return false;
        }
        i = i + 1;
    }
    let ghost m0 = map.bytes();
    let mut i: u16 = start;
    while i < end
        invariant
            start <= i <= end,
            end == start + length,
            map.wf(),
            m0.len() == NUM_PORTS / 8,
            marked(m0, map.bytes(), start as int, i as int),
        decreases end - i,
    {
        proof {
            lemma_port_bits(i);
        }
        let b = (i & 7) as u8;
        let k = (i >> 3) as usize;
        let w = map.map[k];
        let ghost before = map.bytes();
        map.map.set(k, w | (1u8 << b));
        proof {
            assert forall|j: int| 0 <= j < m0.len() * 8 implies #[trigger] port_used(map.bytes(), j)
                == (port_used(m0, j) || start <= j < i + 1) by {
                assert(port_used(before, j) == (port_used(m0, j) || start <= j < i));
                if j / 8 == i / 8 {
                    lemma_byte_set(w, b, (j % 8) as u8);
                    assert(map.bytes()[j / 8] == w | (1u8 << b));
                    assert(before[j / 8] == w);
                    assert((j % 8 == b) == (j == i));
                } else {
                    assert(map.bytes()[j / 8] == before[j / 8]);
                }
            }
        }
        i = i + 1;
    }
    true
}

/// A range of I/O ports held by a driver.
#[derive(Debug)]
pub struct Port {
    start: u16,
    length: u16,
}

impl Port {
    /// The first port.
    pub closed spec fn spec_start(&self) -> u16 {
        self.start
    }

    /// The number of ports.
    pub closed spec fn spec_length(&self) -> u16 {
        self.length
    }

    /// A handle on the `length` ports from `start`, without claiming them in the map.
    pub fn new(start: u16, length: u16) -> (r: Self)
        ensures
            r.spec_start() == start,
            r.spec_length() == length,
    {
        Port { start, length }
    }

    /// A handle on no port.
    pub fn empty() -> (r: Self)
        ensures
            r.spec_start() == 0,
            r.spec_length() == 0,
    {
        Port { start: 0, length: 0 }
    }

    /// The port at `offset` inside the range, which an `in` or `out` instruction addresses.
    pub fn port_address(&self, offset: u16) -> (r: u16)
        requires
            offset < self.spec_length(),
            self.spec_start() + self.spec_length() <= u16::MAX,
        ensures
            r == self.spec_start() + offset,
    {
        self.start + offset
    }

    /// Claims the `length` ports from `start` in `map`; `None` if one of them is in use.
    pub fn alloc_ports(start: u16, length: u16, map: &mut PortMap) -> (r: Option<Self>)
        requires
            old(map).wf(),
            start + length <= u16::MAX,
        ensures
            final(map).wf(),
            range_free(old(map).bytes(), start as int, start + length) <==> r is Some,
            r matches Some(p) ==> p.spec_start() == start && p.spec_length() == length && marked(
                old(map).bytes(),
                final(map).bytes(),
                start as int,
                start + length,
            ),
            r is None ==> final(map).bytes() == old(map).bytes(),
    {
        if try_alloc(start, length, map) {
            Some(Port { start, length })
        } else {
            None
        }
    }

    /// Releases the ports in `map` and empties the handle. For each port `i` of the range, the
    /// byte of `i` loses the bits of the number `i % 8` (not the bit of port `i`).
    pub fn dealloc(&mut self, map: &mut PortMap)
        requires
            old(map).wf(),
            old(self).spec_start() + old(self).spec_length() <= u16::MAX,
        ensures
            final(map).wf(),
            final(map).bytes() == dealloc_steps(
                old(map).bytes(),
                old(self).spec_start() as int,
                old(self).spec_start() + old(self).spec_length(),
            ),
            final(self).spec_start() == 0,
            final(self).spec_length() == 0,
    {
        let end: u16 = self.start + self.length;
        let mut i: u16 = self.start;
        let ghost m0 = map.bytes();
        while i < end
            invariant
                old(self).spec_start() <= i <= end,
                end == old(self).spec_start() + old(self).spec_length(),
                map.wf(),
                map.bytes() == dealloc_steps(m0, old(self).spec_start() as int, i as int),
            decreases end - i,
        {
            proof {
                lemma_port_bits(i);
            }
            let k = (i >> 3) as usize;
            let w = map.map[k];
            map.map.set(k, w & !((i as u8) & 0x7));
            proof {
                let x = i;
                lemma_port_bits(x);
                assert(map.bytes() =~= dealloc_step(
                    dealloc_steps(m0, old(self).spec_start() as int, i as int),
                    i as int,
                ));
            }
            i = i + 1;
        }
        self.start = 0;
        self.length = 0;
    }
}

/// Claims each of the fixed port ranges in `ports`, in order; each must be free.
pub fn init(map: &mut PortMap, ports: &Vec<(u16, u16)>)
    requires
        old(map).wf(),
        forall|k: int| 0 <= k < ports@.len() ==> ports@[k].0 + ports@[k].1 <= u16::MAX,
        forall|k: int|
            0 <= k < ports@.len() ==> range_free(
                old(map).bytes(),
                ports@[k].0 as int,
                ports@[k].0 + ports@[k].1,
            ),
        forall|j: int, k: int|
            0 <= j < k < ports@.len() ==> ports@[j].0 + ports@[j].1 <= ports@[k].0 || ports@[k].0
                + ports@[k].1 <= ports@[j].0 || ports@[j].1 == 0 || ports@[k].1 == 0,
    ensures
        final(map).wf(),
        forall|i: int|
            0 <= i < NUM_PORTS ==> #[trigger] port_used(final(map).bytes(), i) == (port_used(
                old(map).bytes(),
                i,
            ) || exists|k: int|
                0 <= k < ports@.len() && in_range(#[trigger] ports@[k], i)),
{
    let ghost m0 = map.bytes();
    let mut k: usize = 0;
    while k < ports.len()
        invariant
            map.wf(),
            m0.len() == NUM_PORTS / 8,
            k <= ports@.len(),
            forall|t: int| 0 <= t < ports@.len() ==> ports@[t].0 + ports@[t].1 <= u16::MAX,
            forall|t: int|
                0 <= t < ports@.len() ==> range_free(m0, ports@[t].0 as int, ports@[t].0 + ports@[t].1),
            forall|j: int, t: int|
                0 <= j < t < ports@.len() ==> ports@[j].0 + ports@[j].1 <= ports@[t].0 || ports@[t].0
                    + ports@[t].1 <= ports@[j].0 || ports@[j].1 == 0 || ports@[t].1 == 0,
            forall|i: int|
                0 <= i < NUM_PORTS ==> #[trigger] port_used(map.bytes(), i) == (port_used(m0, i)
                    || exists|t: int| 0 <= t < k && in_range(#[trigger] ports@[t], i)),
        decreases ports@.len() - k,
    {
        let (start, length) = ports[k];
        proof {
            assert forall|i: int| start <= i < start + length implies !#[trigger] port_used(
                map.bytes(),
                i,
            ) by {
                assert(!port_used(m0, i));
                if exists|t: int| 0 <= t < k && in_range(#[trigger] ports@[t], i) {
                    let t = choose|t: int| 0 <= t < k && in_range(#[trigger] ports@[t], i);
                    assert(ports@[t].0 + ports@[t].1 <= ports@[k as int].0 || ports@[k as int].0
                        + ports@[k as int].1 <= ports@[t].0 || ports@[t].1 == 0 || ports@[k as int].1
                        == 0);
                }
            }
        }
        let ok = try_alloc(start, length, map);
        assert(ok);
        proof {
            assert forall|i: int| 0 <= i < NUM_PORTS implies #[trigger] port_used(map.bytes(), i)
                == (port_used(m0, i) || exists|t: int|
                0 <= t < k + 1 && in_range(#[trigger] ports@[t], i)) by {
                if start <= i < start + length {
                    assert(in_range(ports@[k as int], i));
                }
            }
        }
        k = k + 1;
    }
}

} // verus!
