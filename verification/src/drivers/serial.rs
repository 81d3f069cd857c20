//! The first serial port: what is written to it and how its status is read.
use vstd::prelude::*;
use vstd::string::StringSliceAdditionalSpecFns;

verus! {

/// The first I/O port of the serial port.
pub const PORT_BASE: u16 = 0x3f8;
/// The number of I/O ports of the serial port.
pub const PORT_COUNT: u16 = 6;
/// The port offset of the data register.
pub const DATA: u16 = 0;
/// The port offset of the FIFO control register.
pub const FIFO_CONTROL: u16 = 2;
/// The port offset of the line status register.
pub const LINE_STATUS: u16 = 5;

/// Whether the serial port has been set up.
pub struct SerialState {
    initialized: bool,
}

impl SerialState {
    /// Whether the serial port has been set up.
    pub closed spec fn spec_initialized(&self) -> bool {
        self.initialized
    }

    /// A serial port not yet set up.
    pub fn new() -> (r: Self)
        ensures
            !r.spec_initialized(),
    {
        SerialState { initialized: false }
    }
}

/// What setting the serial port up does to the flag that says it was done, and the port
/// write it asks for.
pub open spec fn init_step(initialized: bool) -> (bool, Option<(u16, u8)>) {
    (true, if initialized {
        None
    } else {
        Some((FIFO_CONTROL, 0x01u8))
    })
}

/// Setting the serial port up is idempotent: the first call asks for the one port write, and
/// every later call finds the port set up and asks for nothing.
pub proof fn lemma_init_idempotent(initialized: bool)
    ensures
        init_step(initialized).0,
        init_step(init_step(initialized).0) == (true, None::<(u16, u8)>),
        !initialized ==> init_step(initialized).1 == Some((FIFO_CONTROL, 0x01u8)),
{
}

/// Sets the serial port up the first time: returns the port write to make then (enable the
/// FIFOs), and nothing after.
pub fn init(state: &mut SerialState) -> (r: Option<(u16, u8)>)
    ensures
        (final(state).spec_initialized(), r) == init_step(old(state).spec_initialized()),
        final(state).spec_initialized(),
        old(state).spec_initialized() ==> r is None,
        !old(state).spec_initialized() ==> r == Some((FIFO_CONTROL, 0x01u8)),
{
    if !state.initialized {
        state.initialized = true;
        Some((FIFO_CONTROL, 0x01))
    } else {
        None
    }
}

/// The bytes sent for the byte `ch`: the byte, and a carriage return after a line feed.
pub open spec fn encoded(ch: u8) -> Seq<u8> {
    if ch == 10 {
        seq![ch, 13u8]
    } else {
        seq![ch]
    }
}

/// The bytes sent for the bytes `s`, one after the other.
pub open spec fn encoded_all(s: Seq<u8>) -> Seq<u8>
    decreases s.len(),
{
    if s.len() == 0 {
        Seq::empty()
    } else {
        encoded_all(s.drop_last()) + encoded(s.last())
    }
}

/// The bytes written to the data register to send `ch`.
pub fn write(ch: u8) -> (r: Vec<u8>)
    ensures
        r@ == encoded(ch),
{
    let mut r = Vec::new();
    r.push(ch);
    if ch == 10 {
        r.push(13);
    }
    proof {
        if ch == 10 {
            assert(r@ =~= seq![ch, 13u8]);
        } else {
            assert(r@ =~= seq![ch]);
        }
    }
    r
}

/// Sending two strings one after the other sends the bytes of each, one after the other.
pub proof fn lemma_encoded_all_concat(a: Seq<u8>, b: Seq<u8>)
    ensures
        encoded_all(a + b) == encoded_all(a) + encoded_all(b),
    decreases b.len(),
{
    if b.len() == 0 {
        assert(a + b =~= a);
        assert(encoded_all(a) + encoded_all(b) =~= encoded_all(a));
    } else {
        lemma_encoded_all_concat(a, b.drop_last());
        assert((a + b).drop_last() =~= a + b.drop_last());
        assert((a + b).last() == b.last());
        assert(encoded_all(a) + encoded_all(b) =~= encoded_all(a) + encoded_all(b.drop_last()) + encoded(b.last()));
    }
}

/// The serial port as a sink of text.
pub struct Serial;

impl Serial {
    /// The bytes written to the data register to send the string `s`.
    pub fn write_str(&mut self, s: &str) -> (r: Vec<u8>)
        ensures
            r@ == encoded_all(s.spec_bytes()),
    {
        let bytes = s.as_bytes();
        let mut r: Vec<u8> = Vec::new();
        let mut i: usize = 0;
        while i < bytes.len()
            invariant
                i <= bytes@.len(),
                bytes@ == s.spec_bytes(),
                r@ == encoded_all(bytes@.take(i as int)),
            decreases bytes@.len() - i,
        {
            let more = write(bytes[i]);
            let mut k: usize = 0;
            let ghost before = r@;
            while k < more.len()
                invariant
                    k <= more@.len(),
                    r@ == before + more@.take(k as int),
                decreases more@.len() - k,
            {
                r.push(more[k]);
                proof {
                    assert(more@.take(k + 1) =~= more@.take(k as int).push(more@[k as int]));
                }
                k = k + 1;
            }
            proof {
                assert(more@.take(k as int) =~= more@);
                assert(bytes@.take(i + 1).drop_last() =~= bytes@.take(i as int));
            }
            i = i + 1;
        }
        proof {
            assert(bytes@.take(i as int) =~= bytes@);
        }
        r
    }
}

/// Whether the line status `status` says a received byte is waiting.
pub fn read_ready(status: u8) -> (r: bool)
    ensures
        r == (status & 1 != 0),
{
    status & 0x1 != 0
}

} // verus!
