//! Device drivers: the serial port, the programmable interval timer and the paravirtual
//! clock, and the table of drivers set up at boot in the order of their names.
use vstd::prelude::*;
use vstd::string::StringSliceAdditionalSpecFns;

pub mod serial;
pub mod time;

verus! {

/// Byte strings in dictionary order: `a` comes before `b` or equals it.
pub open spec fn lex_le(a: Seq<u8>, b: Seq<u8>) -> bool
    decreases a.len(),
{
    if a.len() == 0 {
        true
    } else if b.len() == 0 {
        false
    } else if a[0] != b[0] {
        a[0] < b[0]
    } else {
        lex_le(a.drop_first(), b.drop_first())
    }
}

/// Of two byte strings one comes first.
pub proof fn lemma_lex_total(a: Seq<u8>, b: Seq<u8>)
    ensures
        lex_le(a, b) || lex_le(b, a),
    decreases a.len(),
{
    if a.len() > 0 && b.len() > 0 && a[0] == b[0] {
        lemma_lex_total(a.drop_first(), b.drop_first());
    }
}

/// Dictionary order is transitive.
pub proof fn lemma_lex_trans(a: Seq<u8>, b: Seq<u8>, c: Seq<u8>)
    requires
        lex_le(a, b),
        lex_le(b, c),
    ensures
        lex_le(a, c),
    decreases a.len(),
{
    if a.len() > 0 && a[0] == b[0] && b[0] == c[0] {
        lemma_lex_trans(a.drop_first(), b.drop_first(), c.drop_first());
    }
}

/// Whether the bytes `a` come before the bytes `b` in dictionary order, or equal them.
pub fn bytes_le(a: &[u8], b: &[u8]) -> (r: bool)
    ensures
        r == lex_le(a@, b@),
{
    let mut i: usize = 0;
    proof {
        assert(a@.skip(0) =~= a@);
        assert(b@.skip(0) =~= b@);
    }
    while i < a.len() && i < b.len()
        invariant
            i <= a@.len(),
            i <= b@.len(),
            lex_le(a@, b@) == lex_le(a@.skip(i as int), b@.skip(i as int)),
        decreases a@.len() - i,
    {
        if a[i] != b[i] {
            return a[i] < b[i];
        }
        proof {
            assert(a@.skip(i as int).drop_first() =~= a@.skip(i + 1));
            assert(b@.skip(i as int).drop_first() =~= b@.skip(i + 1));
        }
        i = i + 1;
    }
    i == a.len()
}

/// Whether the bytes `a` equal the bytes `b`.
pub fn bytes_eq(a: &[u8], b: &[u8]) -> (r: bool)
    ensures
        r == (a@ == b@),
{
    if a.len() != b.len() {
        return false;
    }
    let mut i: usize = 0;
    while i < a.len()
        invariant
            a@.len() == b@.len(),
            i <= a@.len(),
            forall|j: int| 0 <= j < i ==> a@[j] == b@[j],
        decreases a@.len() - i,
    {
        if a[i] != b[i] {
            return false;
        }
        i = i + 1;
    }
    proof {
        assert(a@ =~= b@);
    }
    true
}

/// A driver: its name and the drivers it needs, each by name and, once known, by its place
/// in the table of drivers.
pub struct Driver {
    name: &'static str,
    requirements: Vec<(&'static str, Option<usize>)>,
}

/// Whether requirement `k` of `reqs` is the one named `name`, and none before it is.
pub open spec fn first_requirement(reqs: Seq<(&'static str, Option<usize>)>, name: Seq<u8>, k: int) -> bool {
    &&& 0 <= k < reqs.len()
    &&& reqs[k].0.spec_bytes() == name
    &&& forall|j: int| 0 <= j < k ==> (#[trigger] reqs[j]).0.spec_bytes() != name
}

impl Driver {
    /// The driver's name.
    pub closed spec fn spec_name(&self) -> &'static str {
        self.name
    }

    /// The drivers it needs.
    pub closed spec fn spec_requirements(&self) -> Seq<(&'static str, Option<usize>)> {
        self.requirements@
    }

    /// A driver named `name` that needs `requirements`.
    pub fn new(name: &'static str, requirements: Vec<(&'static str, Option<usize>)>) -> (r: Self)
        ensures
            r.spec_name() == name,
            r.spec_requirements() == requirements@,
    {
        Driver { name, requirements }
    }

    /// The driver's name.
    pub fn name(&self) -> (r: &'static str)
        ensures
            r == self.spec_name(),
    {
        self.name
    }

    /// The drivers it needs.
    pub fn requirements(&self) -> (r: &Vec<(&'static str, Option<usize>)>)
        ensures
            r@ == self.spec_requirements(),
    {
        &self.requirements
    }

    /// The place in the table of the first driver it needs by the name `name`, once known.
    pub fn requirement(&self, name: &str) -> (r: Option<usize>)
        requires
            exists|k: int|
                0 <= k < self.spec_requirements().len()
                    && (#[trigger] self.spec_requirements()[k]).0.spec_bytes() == name.spec_bytes(),
        ensures
            exists|k: int|
                first_requirement(self.spec_requirements(), name.spec_bytes(), k)
                    && r == (#[trigger] self.spec_requirements()[k]).1,
    {
        let reqs = &self.requirements;
        let mut i: usize = 0;
        while i < reqs.len()
            invariant
                reqs@ == self.spec_requirements(),
                i <= reqs@.len(),
                forall|j: int| 0 <= j < i ==> (#[trigger] reqs@[j]).0.spec_bytes() != name.spec_bytes(),
                exists|k: int|
                    0 <= k < reqs@.len() && (#[trigger] reqs@[k]).0.spec_bytes() == name.spec_bytes(),
            decreases reqs@.len() - i,
        {
            if bytes_eq(reqs[i].0.as_bytes(), name.as_bytes()) {
                proof {
                    assert(first_requirement(self.spec_requirements(), name.spec_bytes(), i as int));
                }
                return reqs[i].1;
            }
            i = i + 1;
        }
        proof {
            let k = choose|k: int|
                0 <= k < reqs@.len() && (#[trigger] reqs@[k]).0.spec_bytes() == name.spec_bytes();
            assert(reqs@[k].0.spec_bytes() != name.spec_bytes());
        }
        None
    }
}

/// The name of driver `i` of `drivers`, as bytes.
pub open spec fn name_key(drivers: Seq<Driver>, i: int) -> Seq<u8> {
    drivers[i].spec_name().spec_bytes()
}

/// The order in which the drivers `drivers` are set up: each one once, by name.
pub fn init_order(drivers: &Vec<Driver>) -> (r: Vec<usize>)
    ensures
        r@.len() == drivers@.len(),
        r@.no_duplicates(),
        forall|i: int| 0 <= i < r@.len() ==> r@[i] < drivers@.len(),
        forall|a: int, b: int|
            0 <= a < b < r@.len() ==> lex_le(
                name_key(drivers@, r@[a] as int),
                name_key(drivers@, r@[b] as int),
            ),
{
    let mut r: Vec<usize> = Vec::new();
    let n = drivers.len();
    let mut i: usize = 0;
    while i < n
        invariant
            n == drivers@.len(),
            i <= n,
            r@.len() == i,
            r@.no_duplicates(),
            forall|j: int| 0 <= j < r@.len() ==> r@[j] < i,
            forall|a: int, b: int|
                0 <= a < b < r@.len() ==> lex_le(
                    name_key(drivers@, r@[a] as int),
                    name_key(drivers@, r@[b] as int),
                ),
        decreases n - i,
    {
        let key = drivers[i].name().as_bytes();
        let mut p: usize = r.len();
        while p > 0 && !bytes_le(drivers[r[p - 1]].name().as_bytes(), key)
            invariant
                n == drivers@.len(),
                i < n,
                p <= r@.len(),
                key@ == name_key(drivers@, i as int),
                forall|j: int| 0 <= j < r@.len() ==> r@[j] < i,
                forall|j: int| p <= j < r@.len() ==> !lex_le(
                    name_key(drivers@, r@[j] as int),
                    name_key(drivers@, i as int),
                ),
            decreases p,
        {
            p = p - 1;
        }
        proof {
            assert forall|a: int, b: int|
                0 <= a < b < r@.len() + 1 implies lex_le(
                name_key(drivers@, r@.insert(p as int, i)[a] as int),
                name_key(drivers@, r@.insert(p as int, i)[b] as int),
            ) by {
                let s = r@.insert(p as int, i);
                let ki = name_key(drivers@, i as int);
                if a == p {
                    lemma_lex_total(name_key(drivers@, s[b] as int), ki);
                } else if b == p {
                    if a < p - 1 {
                        lemma_lex_trans(
                            name_key(drivers@, r@[a] as int),
                            name_key(drivers@, r@[p - 1] as int),
                            ki,
                        );
                    }
                } else if a < p && b > p {
                    lemma_lex_total(name_key(drivers@, r@[b - 1] as int), ki);
                    if a < p - 1 {
                        lemma_lex_trans(
                            name_key(drivers@, r@[a] as int),
                            name_key(drivers@, r@[p - 1] as int),
                            ki,
                        );
                    }
                    lemma_lex_trans(
                        name_key(drivers@, r@[a] as int),
                        ki,
                        name_key(drivers@, r@[b - 1] as int),
                    );
                }
            }
        }
        let ghost old_r = r@;
        r.insert(p, i);
        proof {
            assert(r@ == old_r.insert(p as int, i));
            assert forall|x: int, y: int| 0 <= x < y < r@.len() implies r@[x] != r@[y] by {
                let x0 = if x < p { x } else { x - 1 };
                let y0 = if y < p { y } else { y - 1 };
                if x != p && y != p {
                    assert(r@[x] == old_r[x0]);
                    assert(r@[y] == old_r[y0]);
                }
                if x == p {
                    assert(r@[y] == old_r[y0]);
                }
                if y == p {
                    assert(r@[x] == old_r[x0]);
                }
            }
            assert forall|j: int| 0 <= j < r@.len() implies r@[j] < i + 1 by {
                if j < p {
                    assert(r@[j] == old_r[j]);
                } else if j > p {
                    assert(r@[j] == old_r[j - 1]);
                }
            }
        }
        i = i + 1;
    }
    proof {
        assert forall|j: int| 0 <= j < r@.len() implies r@[j] < drivers@.len() by {}
    }
    r
}

} // verus!
