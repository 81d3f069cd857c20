//! Log messages: each starts with a coloured tag for its level and the name of the part of
//! the kernel that logs it.
use vstd::prelude::*;
use vstd::string::StringSliceAdditionalSpecFns;

verus! {

/// How important a log message is.
#[derive(Debug, Copy, Clone, PartialEq, Eq, Structural)]
pub enum LogLevel {
    Debug,
    Info,
    Warning,
    Error,
}

/// Logs for one part of the kernel.
pub struct Logger<'a> {
    name: &'a str,
}

impl<'a> Logger<'a> {
    /// The name of the part of the kernel.
    pub closed spec fn spec_name(&self) -> &'a str {
        self.name
    }

    /// A logger for the part of the kernel named `name`.
    pub fn new(name: &'a str) -> (r: Self)
        ensures
            r.spec_name() == name,
    {
        Logger { name }
    }

    /// The name of the part of the kernel.
    pub fn name(&self) -> (r: &'a str)
        ensures
            r == self.spec_name(),
    {
        self.name
    }
}

/// The coloured tag of a level, as the header of a message shows it between brackets.
pub fn level_tag(level: LogLevel) -> (r: &'static str)
    ensures
        r@ == tag_str(level)@,
{
    match level {
        LogLevel::Debug => "\x1b[34mD\x1b[0m",
        LogLevel::Info => "\x1b[32mI\x1b[0m",
        LogLevel::Warning => "\x1b[33m\x1b[1mW\x1b[0m",
        LogLevel::Error => "\x1b[31m\x1b[1mE\x1b[0m",
    }
}

/// The coloured tag of a level.
pub open spec fn tag_str(level: LogLevel) -> &'static str {
    match level {
        LogLevel::Debug => "\x1b[34mD\x1b[0m",
        LogLevel::Info => "\x1b[32mI\x1b[0m",
        LogLevel::Warning => "\x1b[33m\x1b[1mW\x1b[0m",
        LogLevel::Error => "\x1b[31m\x1b[1mE\x1b[0m",
    }
}

/// The start of a log line: the tag in brackets, then the name in brackets, each followed by
/// a space.
pub open spec fn header_bytes(tag: Seq<u8>, name: Seq<u8>) -> Seq<u8> {
    seq![0x5bu8] + tag + seq![0x5du8, 0x20u8, 0x5bu8] + name + seq![0x5du8, 0x20u8]
}

/// Appends the bytes `b` to `v`.
fn push_all(v: &mut Vec<u8>, b: &[u8])
    ensures
        final(v)@ == old(v)@ + b@,
{
    let mut i: usize = 0;
    while i < b.len()
        invariant
            i <= b@.len(),
            v@ == old(v)@ + b@.take(i as int),
        decreases b@.len() - i,
    {
        v.push(b[i]);
        proof {
            assert(b@.take(i + 1) =~= b@.take(i as int).push(b@[i as int]));
        }
        i = i + 1;
    }
    proof {
        assert(b@.take(i as int) =~= b@);
    }
}

impl<'a> Logger<'a> {
    /// The bytes a log line of level `level` starts with.
    pub fn header(&self, level: LogLevel) -> (r: Vec<u8>)
        ensures
            r@ == header_bytes(tag_str(level).spec_bytes(), self.spec_name().spec_bytes()),
    {
        let mut r: Vec<u8> = Vec::new();
        r.push(0x5b);
        let tag = level_tag(level);
        proof {
            assert(tag.spec_bytes() == tag_str(level).spec_bytes());
        }
        push_all(&mut r, tag.as_bytes());
        r.push(0x5d);
        r.push(0x20);
        r.push(0x5b);
        push_all(&mut r, self.name.as_bytes());
        r.push(0x5d);
        r.push(0x20);
        proof {
            assert(r@ =~= header_bytes(tag_str(level).spec_bytes(), self.spec_name().spec_bytes()));
        }
        r
    }
}

} // verus!
