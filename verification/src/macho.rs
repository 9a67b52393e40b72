//! The entry point that the load commands of a Mach-O image announce.
use crate::bytes::{pow256, uint_at, Endian};
use vstd::prelude::*;

verus! {

pub const LC_SEGMENT: u64 = 0x1;

pub const LC_SEGMENT_64: u64 = 0x19;

pub const LC_MAIN: u64 = 0x8000_0028;

/// The byte order and the class (whether it is a 64-bit one) of the Mach-O image `data`.
pub open spec fn mach_ident(data: Seq<u8>) -> Option<(Endian, bool)> {
    if data.len() < 32 {
        None
    } else if data[0] == 0xfe && data[1] == 0xed && data[2] == 0xfa && data[3] == 0xce {
        Some((Endian::Big, false))
    } else if data[0] == 0xfe && data[1] == 0xed && data[2] == 0xfa && data[3] == 0xcf {
        Some((Endian::Big, true))
    } else if data[0] == 0xce && data[1] == 0xfa && data[2] == 0xed && data[3] == 0xfe {
        Some((Endian::Little, false))
    } else if data[0] == 0xcf && data[1] == 0xfa && data[2] == 0xed && data[3] == 0xfe {
        Some((Endian::Little, true))
    } else {
        None
    }
}

fn read_ident(data: &[u8]) -> (r: Option<(Endian, bool)>)
    ensures
        r == mach_ident(data@),
{
    if data.len() < 32 {
        None
    } else if data[0] == 0xfe && data[1] == 0xed && data[2] == 0xfa && data[3] == 0xce {
        Some((Endian::Big, false))
    } else if data[0] == 0xfe && data[1] == 0xed && data[2] == 0xfa && data[3] == 0xcf {
        Some((Endian::Big, true))
    } else if data[0] == 0xce && data[1] == 0xfa && data[2] == 0xed && data[3] == 0xfe {
        Some((Endian::Little, false))
    } else if data[0] == 0xcf && data[1] == 0xfa && data[2] == 0xed && data[3] == 0xfe {
        Some((Endian::Little, true))
    } else {
        None
    }
}

/// What the load commands say of the entry point: the file offset that the first `LC_MAIN`
/// gives, and the address and the file offset of the first segment named `__TEXT`.
#[derive(Debug, Clone, Copy)]
pub struct Entry {
    pub main: Option<u64>,
    pub text: Option<(u64, u64)>,
}

/// The size of the fixed part of a load command.
pub open spec fn fixed_part(cmd: nat) -> int {
    if cmd == LC_SEGMENT {
        56
    } else if cmd == LC_SEGMENT_64 {
        72
    } else if cmd == LC_MAIN {
        24
    } else {
        8
    }
}

/// Whether the segment command at `at` is named `__TEXT`.
pub open spec fn is_text(data: Seq<u8>, at: int) -> bool {
    &&& data[at + 8] == 0x5f && data[at + 9] == 0x5f && data[at + 10] == 0x54
    &&& data[at + 11] == 0x45 && data[at + 12] == 0x58 && data[at + 13] == 0x54
    &&& data[at + 14] == 0
}

/// What the load command at `at` alone says of the entry point.
pub open spec fn entry_at(e: Endian, data: Seq<u8>, at: int) -> Entry {
    let cmd = uint_at(e, data, at, 4);
    Entry {
        main: if cmd == LC_MAIN {
            Some(uint_at(e, data, at + 8, 8) as u64)
        } else {
            None
        },
        text: if cmd == LC_SEGMENT && is_text(data, at) {
            Some((uint_at(e, data, at + 24, 4) as u64, uint_at(e, data, at + 32, 4) as u64))
        } else if cmd == LC_SEGMENT_64 && is_text(data, at) {
            Some((uint_at(e, data, at + 24, 8) as u64, uint_at(e, data, at + 40, 8) as u64))
        } else {
            None
        },
    }
}

/// Whether the load command at `at` lies inside the file.
pub open spec fn command_fits(e: Endian, data: Seq<u8>, at: int) -> bool {
    &&& at + 8 <= data.len()
    &&& at + fixed_part(uint_at(e, data, at, 4)) <= data.len()
    &&& at + uint_at(e, data, at + 4, 4) <= data.len()
}

/// What was said first.
pub open spec fn first_of(a: Entry, b: Entry) -> Entry {
    Entry {
        main: if a.main is Some {
            a.main
        } else {
            b.main
        },
        text: if a.text is Some {
            a.text
        } else {
            b.text
        },
    }
}

/// What the `n` load commands from `at` on say of the entry point, where all of them lie inside
/// the file.
pub open spec fn entry_of(e: Endian, data: Seq<u8>, at: int, n: nat) -> Option<Entry>
    decreases n,
{
    if n == 0 {
        Some(Entry { main: None, text: None })
    } else if !command_fits(e, data, at) {
        None
    } else {
        match entry_of(e, data, at + uint_at(e, data, at + 4, 4), (n - 1) as nat) {
            None => None,
            Some(rest) => Some(first_of(entry_at(e, data, at), rest)),
        }
    }
}

/// Whether the address of the entry point, `vmaddr - fileoff + main`, lies outside the 64-bit
/// address space, or the difference does.
pub open spec fn outside(entry: Entry) -> bool {
    match (entry.main, entry.text) {
        (Some(main), Some((vmaddr, fileoff))) => vmaddr < fileoff || vmaddr - fileoff + main
            > u64::MAX,
        _ => false,
    }
}

/// Whether `data` is a Mach-O image whose load commands announce an entry point that no 64-bit
/// address can name.
pub open spec fn entry_overflows(data: Seq<u8>) -> bool {
    match mach_ident(data) {
        None => false,
        Some((e, is_64)) => {
            let count = uint_at(e, data, 16, 4);
            let size = uint_at(e, data, 20, 4);
            let first = if is_64 {
                32int
            } else {
                28int
            };
            &&& count <= size / 8
            &&& size <= data.len()
            &&& entry_of(e, data, first, count) matches Some(entry) && outside(entry)
        },
    }
}

fn read_command(e: Endian, data: &[u8], at: usize) -> (r: Option<(Entry, usize)>)
    requires
        at <= data@.len(),
    ensures
        match r {
            None => !command_fits(e, data@, at as int),
            Some((entry, next)) => {
                &&& command_fits(e, data@, at as int)
                &&& entry == entry_at(e, data@, at as int)
                &&& next == at + uint_at(e, data@, at + 4, 4)
            },
        },
{
    proof {
        reveal_with_fuel(pow256, 9);
    }
    let left: usize = data.len() - at;
    if left < 8 {
        return None;
    }
    let cmd: u64 = e.read_uint(data, at, 4);
    let size: u64 = e.read_uint(data, at + 4, 4);
    let fixed: usize = if cmd == LC_SEGMENT {
        56
    } else if cmd == LC_SEGMENT_64 {
        72
    } else if cmd == LC_MAIN {
        24
    } else {
        8
    };
    if left < fixed || (left as u64) < size {
        return None;
    }
    let main: Option<u64> = if cmd == LC_MAIN {
        Some(e.read_uint(data, at + 8, 8))
    } else {
        None
    };
    let segment: bool = cmd == LC_SEGMENT || cmd == LC_SEGMENT_64;
    let named: bool = segment && data[at + 8] == 0x5f && data[at + 9] == 0x5f && data[at + 10]
        == 0x54 && data[at + 11] == 0x45 && data[at + 12] == 0x58 && data[at + 13] == 0x54
        && data[at + 14] == 0;
    let text: Option<(u64, u64)> = if !named {
        None
    } else if cmd == LC_SEGMENT {
        Some((e.read_uint(data, at + 24, 4), e.read_uint(data, at + 32, 4)))
    } else {
        Some((e.read_uint(data, at + 24, 8), e.read_uint(data, at + 40, 8)))
    };
    Some((Entry { main, text }, at + size as usize))
}

/// What the `n` load commands from `first` on say of the entry point.
fn read_entry(e: Endian, data: &[u8], first: usize, n: u64) -> (r: Option<Entry>)
    requires
        first <= data@.len(),
    ensures
        r == entry_of(e, data@, first as int, n as nat),
{
    let ghost goal = entry_of(e, data@, first as int, n as nat);
    let mut entry = Entry { main: None, text: None };
    let mut at: usize = first;
    let mut left: u64 = n;
    while left > 0
        invariant
            at <= data@.len(),
            goal == entry_of(e, data@, first as int, n as nat),
            goal == (match entry_of(e, data@, at as int, left as nat) {
                None => None,
                Some(rest) => Some(first_of(entry, rest)),
            }),
        decreases left,
    {
        match read_command(e, data, at) {
            None => {
                return None;
            },
            Some((found, next)) => {
                if entry.main.is_none() {
                    entry.main = found.main;
                }
                if entry.text.is_none() {
                    entry.text = found.text;
                }
                at = next;
            },
        }
        left = left - 1;
    }
    Some(entry)
}

/// Whether no 64-bit address can name the entry point of the Mach-O image `data`.
pub fn entry_is_outside(data: &[u8]) -> (r: bool)
    ensures
        r == entry_overflows(data@),
{
    match read_ident(data) {
        None => false,
        Some((e, is_64)) => {
            let count: u64 = e.read_uint(data, 16, 4);
            let size: u64 = e.read_uint(data, 20, 4);
            let first: usize = if is_64 {
                32
            } else {
                28
            };
            if count > size / 8 || size > data.len() as u64 {
                return false;
            }
            match read_entry(e, data, first, count) {
                None => false,
                Some(entry) => match (entry.main, entry.text) {
                    (Some(main), Some((vmaddr, fileoff))) => vmaddr < fileoff || vmaddr - fileoff
                        > u64::MAX - main,
                    _ => false,
                },
            }
        },
    }
}

/// The place of the `i`-th of the load commands that start at `at`: each says how long it is.
pub open spec fn command_place(e: Endian, data: Seq<u8>, at: int, i: nat) -> int
    decreases i,
{
    if i == 0 {
        at
    } else {
        command_place(e, data, at + uint_at(e, data, at + 4, 4), (i - 1) as nat)
    }
}

/// Whether the load command at `at` gives the entry point.
pub open spec fn gives_main(e: Endian, data: Seq<u8>, at: int) -> bool {
    uint_at(e, data, at, 4) == 0x8000_0028
}

/// Whether the load command at `at` is the segment `__TEXT`.
pub open spec fn gives_text(e: Endian, data: Seq<u8>, at: int) -> bool {
    (uint_at(e, data, at, 4) == 0x1 || uint_at(e, data, at, 4) == 0x19) && data.subrange(
        at + 8,
        at + 15,
    ) == seq![0x5fu8, 0x5f, 0x54, 0x45, 0x58, 0x54, 0]
}

/// The image starts with the magic number of its class, in its byte order.
pub proof fn law_magic(data: Seq<u8>, e: Endian, is_64: bool)
    ensures
        mach_ident(data) == Some((e, is_64)) <==> data.len() >= 32 && uint_at(e, data, 0, 4) == (
        if is_64 {
            0xfeed_facf
        } else {
            0xfeed_faceint
        }),
{
    if data.len() >= 32 {
        let s = data.subrange(0, 4);
        let w = match e {
            Endian::Little => s,
            Endian::Big => s.reverse(),
        };
        assert(w.drop_first().drop_first().drop_first().drop_first() =~= Seq::<u8>::empty());
        reveal_with_fuel(crate::bytes::le_value, 5);
        assert(uint_at(e, data, 0, 4) == w[0] + 256 * (w[1] + 256 * (w[2] + 256 * w[3])));
    }
}

/// The load commands announce what the first of them that gives the entry point, and the first
/// that is the segment `__TEXT`, say: nothing where one runs past the end of the file.
pub proof fn law_entry(e: Endian, data: Seq<u8>, at: int, n: nat, main: nat, text: nat)
    requires
        0 <= at,
        forall|i: nat|
            i < n ==> command_fits(e, data, #[trigger] command_place(e, data, at, i)),
        main <= n,
        text <= n,
        main < n ==> gives_main(e, data, command_place(e, data, at, main)),
        text < n ==> gives_text(e, data, command_place(e, data, at, text)),
        forall|i: nat| i < main ==> !gives_main(e, data, #[trigger] command_place(e, data, at, i)),
        forall|i: nat| i < text ==> !gives_text(e, data, #[trigger] command_place(e, data, at, i)),
    ensures
        entry_of(e, data, at, n) is Some,
        ({
            let entry = entry_of(e, data, at, n)->0;
            let m = command_place(e, data, at, main);
            let t = command_place(e, data, at, text);
            &&& entry.main == (if main < n {
                Some(uint_at(e, data, m + 8, 8) as u64)
            } else {
                None
            })
            &&& entry.text == (if text < n {
                Some(
                    if uint_at(e, data, t, 4) == 0x1 {
                        (uint_at(e, data, t + 24, 4) as u64, uint_at(e, data, t + 32, 4) as u64)
                    } else {
                        (uint_at(e, data, t + 24, 8) as u64, uint_at(e, data, t + 40, 8) as u64)
                    },
                )
            } else {
                None
            })
        }),
    decreases n,
{
    if n > 0 {
        let next = at + uint_at(e, data, at + 4, 4);
        assert(command_place(e, data, at, 0) == at);
        assert(command_fits(e, data, command_place(e, data, at, 0)));
        assert(gives_text(e, data, at) <==> (uint_at(e, data, at, 4) == 0x1 || uint_at(
            e,
            data,
            at,
            4,
        ) == 0x19) && is_text(data, at)) by {
            if uint_at(e, data, at, 4) == 0x1 || uint_at(e, data, at, 4) == 0x19 {
                let s = data.subrange(at + 8, at + 15);
                let name = seq![0x5fu8, 0x5f, 0x54, 0x45, 0x58, 0x54, 0];
                assert(forall|i: int| 0 <= i < 7 ==> s[i] == data[at + 8 + i]);
                if is_text(data, at) {
                    assert(s =~= name);
                }
                if s == name {
                    assert(s[0] == 0x5f && s[1] == 0x5f && s[2] == 0x54 && s[3] == 0x45 && s[4]
                        == 0x58 && s[5] == 0x54 && s[6] == 0);
                }
            }
        }
        let rest_main = if main == 0 {
            first_main(e, data, next, (n - 1) as nat)
        } else {
            (main - 1) as nat
        };
        let rest_text = if text == 0 {
            first_text(e, data, next, (n - 1) as nat)
        } else {
            (text - 1) as nat
        };
        assert forall|i: nat| i < n - 1 implies command_fits(
            e,
            data,
            #[trigger] command_place(e, data, next, i),
        ) by {
            assert(command_place(e, data, at, i + 1) == command_place(e, data, next, i));
        }
        assert forall|i: nat| i < rest_main implies !gives_main(
            e,
            data,
            #[trigger] command_place(e, data, next, i),
        ) by {
            if main > 0 {
                assert(command_place(e, data, at, i + 1) == command_place(e, data, next, i));
            }
        }
        assert forall|i: nat| i < rest_text implies !gives_text(
            e,
            data,
            #[trigger] command_place(e, data, next, i),
        ) by {
            if text > 0 {
                assert(command_place(e, data, at, i + 1) == command_place(e, data, next, i));
            }
        }
        if main > 0 {
            assert(!gives_main(e, data, command_place(e, data, at, 0)));
            if main < n {
                assert(command_place(e, data, at, main) == command_place(e, data, next, rest_main));
            }
        }
        if text > 0 {
            assert(!gives_text(e, data, command_place(e, data, at, 0)));
            if text < n {
                assert(command_place(e, data, at, text) == command_place(e, data, next, rest_text));
            }
        }
        law_entry(e, data, next, (n - 1) as nat, rest_main, rest_text);
    }
}

/// The first of the `n` load commands from `at` on that gives the entry point, else `n`.
proof fn first_main(e: Endian, data: Seq<u8>, at: int, n: nat) -> (k: nat)
    ensures
        k <= n,
        k < n ==> gives_main(e, data, command_place(e, data, at, k)),
        forall|i: nat| i < k ==> !gives_main(e, data, #[trigger] command_place(e, data, at, i)),
    decreases n,
{
    if n == 0 || gives_main(e, data, at) {
        0
    } else {
        let next = at + uint_at(e, data, at + 4, 4);
        let k = first_main(e, data, next, (n - 1) as nat);
        assert forall|i: nat| i < k + 1 implies !gives_main(
            e,
            data,
            #[trigger] command_place(e, data, at, i),
        ) by {
            if i > 0 {
                assert(command_place(e, data, at, i) == command_place(
                    e,
                    data,
                    next,
                    (i - 1) as nat,
                ));
            }
        }
        k + 1
    }
}

/// The first of the `n` load commands from `at` on that is the segment `__TEXT`, else `n`.
proof fn first_text(e: Endian, data: Seq<u8>, at: int, n: nat) -> (k: nat)
    ensures
        k <= n,
        k < n ==> gives_text(e, data, command_place(e, data, at, k)),
        forall|i: nat| i < k ==> !gives_text(e, data, #[trigger] command_place(e, data, at, i)),
    decreases n,
{
    if n == 0 || gives_text(e, data, at) {
        0
    } else {
        let next = at + uint_at(e, data, at + 4, 4);
        let k = first_text(e, data, next, (n - 1) as nat);
        assert forall|i: nat| i < k + 1 implies !gives_text(
            e,
            data,
            #[trigger] command_place(e, data, at, i),
        ) by {
            if i > 0 {
                assert(command_place(e, data, at, i) == command_place(
                    e,
                    data,
                    next,
                    (i - 1) as nat,
                ));
            }
        }
        k + 1
    }
}

/// An entry point is as far behind the start of `__TEXT` in memory as its offset is in the file;
/// it is refused where that is no 64-bit address, or `__TEXT` lies further behind in the file than
/// in memory.
pub proof fn law_entry_outside(main: u64, vmaddr: u64, fileoff: u64)
    ensures
        outside(Entry { main: Some(main), text: Some((vmaddr, fileoff)) }) <==> !(0 <= vmaddr
            - fileoff && main + vmaddr - fileoff < 0x1_0000_0000_0000_0000),
        !outside(Entry { main: Some(main), text: None }),
        !outside(Entry { main: None, text: Some((vmaddr, fileoff)) }),
{
}

/// An image whose load commands lie in it is refused exactly where the entry point that they
/// announce is as far outside the address space as `law_entry_outside` says.
pub proof fn law_entry_overflows(
    data: Seq<u8>,
    e: Endian,
    is_64: bool,
    first: int,
    main: nat,
    text: nat,
)
    requires
        first == (if is_64 {
            32int
        } else {
            28
        }),
        mach_ident(data) == Some((e, is_64)),
        uint_at(e, data, 16, 4) <= uint_at(e, data, 20, 4) / 8,
        uint_at(e, data, 20, 4) <= data.len(),
        ({
            let n = uint_at(e, data, 16, 4);
            &&& forall|i: nat|
                i < n ==> command_fits(e, data, #[trigger] command_place(e, data, first, i))
            &&& main < n
            &&& text < n
            &&& gives_main(e, data, command_place(e, data, first, main))
            &&& gives_text(e, data, command_place(e, data, first, text))
            &&& forall|i: nat|
                i < main ==> !gives_main(e, data, #[trigger] command_place(e, data, first, i))
            &&& forall|i: nat|
                i < text ==> !gives_text(e, data, #[trigger] command_place(e, data, first, i))
        }),
    ensures
        ({
            let m = command_place(e, data, first, main);
            let t = command_place(e, data, first, text);
            let offset = uint_at(e, data, m + 8, 8) as u64;
            let (vmaddr, fileoff) = if uint_at(e, data, t, 4) == 0x1 {
                (uint_at(e, data, t + 24, 4) as u64, uint_at(e, data, t + 32, 4) as u64)
            } else {
                (uint_at(e, data, t + 24, 8) as u64, uint_at(e, data, t + 40, 8) as u64)
            };
            entry_overflows(data) <==> vmaddr < fileoff || offset + vmaddr - fileoff
                >= 0x1_0000_0000_0000_0000
        }),
{
    law_entry(e, data, first, uint_at(e, data, 16, 4), main, text);
}

} // verus!
