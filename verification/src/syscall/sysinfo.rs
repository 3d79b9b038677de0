//! What the system says of itself.

use crate::syscall::files::hand_out;
use crate::syscall::kernel::Kernel;
use vstd::prelude::*;

verus! {

/// Bytes of a field.
pub const UTS_FIELD: usize = 65;

/// Number of fields.
pub const UTS_FIELDS: usize = 6;

/// Bytes of the structure.
pub const UTSNAME_SIZE: usize = 390;

/// A field: the text, and zeros to its end.
pub open spec fn uts_field(text: Seq<u8>) -> Seq<u8> {
    text + Seq::new((UTS_FIELD - text.len()) as nat, |i: int| 0u8)
}

/// The text `ferros`.
pub open spec fn text_name() -> Seq<u8> {
    seq![0x66u8, 0x65, 0x72, 0x72, 0x6f, 0x73]
}

/// The text `0.1.0`.
pub open spec fn text_release() -> Seq<u8> {
    seq![0x30u8, 0x2e, 0x31, 0x2e, 0x30]
}

/// The text `ferros M9 x86_64`.
pub open spec fn text_version() -> Seq<u8> {
    seq![
        0x66u8, 0x65, 0x72, 0x72, 0x6f, 0x73, 0x20, 0x4d, 0x39, 0x20, 0x78, 0x38, 0x36, 0x5f, 0x36,
        0x34,
    ]
}

/// The text `x86_64`.
pub open spec fn text_machine() -> Seq<u8> {
    seq![0x78u8, 0x38, 0x36, 0x5f, 0x36, 0x34]
}

/// The text `(none)`.
pub open spec fn text_domain() -> Seq<u8> {
    seq![0x28u8, 0x6e, 0x6f, 0x6e, 0x65, 0x29]
}

/// The structure that `uname` fills in: system, host, release, version, machine, domain.
pub open spec fn utsname() -> Seq<u8> {
    uts_field(text_name()) + uts_field(text_name()) + uts_field(text_release()) + uts_field(
        text_version(),
    ) + uts_field(text_machine()) + uts_field(text_domain())
}

/// Appends a field.
fn push_field(out: &mut Vec<u8>, text: &[u8])
    requires
        text@.len() < UTS_FIELD,
    ensures
        final(out)@ == old(out)@ + uts_field(text@),
{
    let ghost before = out@;
    out.extend_from_slice(text);
    let pad = UTS_FIELD - text.len();
    let mut i: usize = 0;
    while i < pad
        invariant
            i <= pad,
            out@ =~= before + text@ + Seq::new(i as nat, |j: int| 0u8),
        decreases pad - i,
    {
        out.push(0);
        i += 1;
    }
    assert(out@ =~= before + uts_field(text@));
}

/// `uname(buf)`.
pub fn sys_uname(k: &mut Kernel, buf: u64) -> (r: i64)
    requires
        old(k)@.wf(),
    ensures
        final(k)@.wf(),
        (final(k)@, r) == old(k)@.handed_out(buf, utsname()),
{
    let name = [0x66u8, 0x65, 0x72, 0x72, 0x6f, 0x73];
    let release = [0x30u8, 0x2e, 0x31, 0x2e, 0x30];
    let version = [
        0x66u8, 0x65, 0x72, 0x72, 0x6f, 0x73, 0x20, 0x4d, 0x39, 0x20, 0x78, 0x38, 0x36, 0x5f, 0x36,
        0x34,
    ];
    let machine = [0x78u8, 0x38, 0x36, 0x5f, 0x36, 0x34];
    let domain = [0x28u8, 0x6e, 0x6f, 0x6e, 0x65, 0x29];
    proof {
        assert(name@ =~= text_name());
        assert(release@ =~= text_release());
        assert(version@ =~= text_version());
        assert(machine@ =~= text_machine());
        assert(domain@ =~= text_domain());
    }
    let mut out: Vec<u8> = Vec::new();
    push_field(&mut out, &name);
    push_field(&mut out, &name);
    push_field(&mut out, &release);
    push_field(&mut out, &version);
    push_field(&mut out, &machine);
    push_field(&mut out, &domain);
    assert(out@ =~= utsname());
    hand_out(k, buf, out.as_slice())
}

} // verus!
