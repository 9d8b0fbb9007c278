//! How much a machine can bear: its memory, any limit on it, and the number of
//! evaluations to run at once.

use vstd::prelude::*;

use crate::search::{
    line_texts, split_lines, split_words, starts_with, strip_prefix, trim, trimmed, words,
};
use crate::text::{opt_text, parse_u64, texts, u64_value};

verus! {

/// The memory that one slot is counted at, in MiB: what a worker typically holds.
pub const SLOT_MEM_MB: u64 = 2048;

/// The memory to budget for each slot that evaluates tests, in MiB: as much as a worker
/// may take before it is restarted.
pub const TESTS_SLOT_MEM_MB: u64 = 4096;

/// The memory of a machine that does not say, in MiB.
pub const FALLBACK_MEM_MB: u64 = 8192;

/// The memory that slots are planned from: the machine's, or a limit that the
/// process runs under where that is less.
pub fn total_mem_mb(physical: u64, limit: Option<u64>) -> (mb: u64)
    ensures
        mb == (match limit {
            Some(l) => if l < physical {
                l
            } else {
                physical
            },
            None => physical,
        }),
{
    match limit {
        Some(l) => if l < physical {
            l
        } else {
            physical
        },
        None => physical,
    }
}

/// The first line that starts with `prefix`, without it.
pub open spec fn first_with_prefix(lines: Seq<Seq<char>>, prefix: Seq<char>) -> Option<Seq<char>>
    decreases lines.len(),
{
    if lines.len() == 0 {
        None
    } else if prefix.is_prefix_of(lines[0]) {
        Some(lines[0].skip(prefix.len() as int))
    } else {
        first_with_prefix(lines.skip(1), prefix)
    }
}

/// The first line that starts with `prefix`, without it.
fn find_prefixed(text: &str, prefix: &str) -> (out: Option<String>)
    ensures
        opt_text(out) == first_with_prefix(line_texts(text@), prefix@),
{
    let lines = split_lines(text);
    let ghost all = line_texts(text@);
    let mut i: usize = 0;
    assert(all.skip(0) =~= all);
    while i < lines.len()
        invariant
            i <= lines@.len(),
            texts(lines@) == all,
            all == line_texts(text@),
            first_with_prefix(all.skip(i as int), prefix@) == first_with_prefix(all, prefix@),
        decreases lines@.len() - i,
    {
        assert(texts(lines@)[i as int] == lines@[i as int]@);
        if let Some(rest) = strip_prefix(lines[i].as_str(), prefix) {
            return Some(rest.to_owned());
        }
        assert(all.skip(i as int).skip(1) =~= all.skip(i + 1));
        i += 1;
    }
    assert(texts(lines@).len() == lines@.len());
    None
}

/// Where the process stands in the hierarchy of memory limits, from the text of
/// its membership file: what follows `0::` on the first line that starts so.
pub fn cgroup_path(membership: &str) -> (out: Option<String>)
    ensures
        opt_text(out) == (match first_with_prefix(line_texts(membership@), "0::"@) {
            Some(rest) => Some(trimmed(rest)),
            None => None,
        }),
{
    match find_prefixed(membership, "0::") {
        Some(rest) => Some(trim(rest.as_str()).to_owned()),
        None => None,
    }
}

/// The smallest of the limits in some texts, in bytes; a text that is no number
/// sets no limit.
pub open spec fn least_limit(contents: Seq<Seq<char>>) -> Option<u64>
    decreases contents.len(),
{
    if contents.len() == 0 {
        None
    } else {
        match (least_limit(contents.drop_last()), u64_value(trimmed(contents.last()))) {
            (Some(a), Some(b)) => Some(
                if a < b {
                    a
                } else {
                    b
                },
            ),
            (None, limit) => limit,
            (limit, None) => limit,
        }
    }
}

/// The tightest memory limit among the contents of the limit files above a
/// process, in MiB.
pub fn cgroup_mem_limit_mb(contents: &[String]) -> (mb: Option<u64>)
    ensures
        mb == (match least_limit(texts(contents@)) {
            Some(bytes) => Some((bytes / 1024 / 1024) as u64),
            None => None,
        }),
{
    let ghost all = texts(contents@);
    let mut least: Option<u64> = None;
    let mut i: usize = 0;
    assert(all.take(0) =~= Seq::<Seq<char>>::empty());
    while i < contents.len()
        invariant
            i <= contents@.len(),
            all == texts(contents@),
            least == least_limit(all.take(i as int)),
        decreases contents@.len() - i,
    {
        assert(all.take(i + 1).drop_last() =~= all.take(i as int));
        assert(all.take(i + 1).last() == contents@[i as int]@);
        if let Some(b) = parse_u64(trim(contents[i].as_str())) {
            least = match least {
                Some(a) => Some(
                    if a < b {
                        a
                    } else {
                        b
                    },
                ),
                None => Some(b),
            };
        }
        i += 1;
    }
    assert(all.take(i as int) =~= all);
    match least {
        Some(bytes) => Some(bytes / 1024 / 1024),
        None => None,
    }
}

/// The first line that starts with `prefix`.
pub open spec fn first_starting(lines: Seq<Seq<char>>, prefix: Seq<char>) -> Option<Seq<char>>
    decreases lines.len(),
{
    if lines.len() == 0 {
        None
    } else if prefix.is_prefix_of(lines[0]) {
        Some(lines[0])
    } else {
        first_starting(lines.skip(1), prefix)
    }
}

/// The KiB that the memory file of a Linux machine gives as its total.
pub open spec fn meminfo_kb(text: Seq<char>) -> Option<u64> {
    match first_starting(line_texts(text), "MemTotal:"@) {
        Some(line) => if words(line).len() > 1 {
            u64_value(words(line)[1])
        } else {
            None
        },
        None => None,
    }
}

/// The KiB that the memory file of a Linux machine gives as its total.
fn read_meminfo(text: &str) -> (kb: Option<u64>)
    ensures
        kb == meminfo_kb(text@),
{
    let lines = split_lines(text);
    let ghost all = line_texts(text@);
    let mut i: usize = 0;
    assert(all.skip(0) =~= all);
    while i < lines.len()
        invariant
            i <= lines@.len(),
            texts(lines@) == all,
            first_starting(all.skip(i as int), "MemTotal:"@) == first_starting(
                all,
                "MemTotal:"@,
            ),
            all == line_texts(text@),
        decreases lines@.len() - i,
    {
        assert(texts(lines@)[i as int] == lines@[i as int]@);
        if starts_with(lines[i].as_str(), "MemTotal:") {
            let ws = split_words(lines[i].as_str());
            assert(texts(ws@).len() == ws@.len());
            if ws.len() > 1 {
                assert(texts(ws@)[1] == ws@[1]@);
                return parse_u64(ws[1].as_str());
            }
            return None;
        }
        assert(all.skip(i as int).skip(1) =~= all.skip(i + 1));
        i += 1;
    }
    assert(texts(lines@).len() == lines@.len());
    None
}

/// The memory of the machine, in MiB: from the memory file of Linux, else from
/// what `sysctl` printed (in bytes), else a guess.
pub open spec fn physical_mb(meminfo: Option<Seq<char>>, sysctl: Option<Seq<char>>) -> int {
    let kb = match meminfo {
        Some(text) => meminfo_kb(text),
        None => None,
    };
    let bytes = match sysctl {
        Some(text) => u64_value(trimmed(text)),
        None => None,
    };
    match (kb, bytes) {
        (Some(kb), _) => kb as int / 1024,
        (None, Some(bytes)) => bytes as int / 1024 / 1024,
        (None, None) => FALLBACK_MEM_MB as int,
    }
}

/// The memory of the machine, in MiB. `sysctl` is what the command printed, where
/// it ran and succeeded; it is asked only where the memory file does not answer.
pub fn physical_mem_mb(meminfo: Option<&str>, sysctl: Option<&str>) -> (mb: u64)
    ensures
        mb == physical_mb(crate::text::opt_str(meminfo), crate::text::opt_str(sysctl)),
{
    if let Some(text) = meminfo {
        if let Some(kb) = read_meminfo(text) {
            return kb / 1024;
        }
    }
    if let Some(text) = sysctl {
        if let Some(bytes) = parse_u64(trim(text)) {
            return bytes / 1024 / 1024;
        }
    }
    FALLBACK_MEM_MB
}

/// Whether the memory file does not answer, so that `sysctl` is to be asked.
pub fn needs_sysctl(meminfo: Option<&str>) -> (yes: bool)
    ensures
        yes == (match meminfo {
            Some(text) => meminfo_kb(text@) is None,
            None => true,
        }),
{
    match meminfo {
        Some(text) => read_meminfo(text).is_none(),
        None => true,
    }
}

/// The number of shards to evaluate at once.
pub open spec fn slot_count(
    cores: usize,
    mem_mb: u64,
    per_slot_mb: u64,
    user: Option<u64>,
) -> usize {
    match user {
        Some(s) => if (s as usize) < 1 {
            1
        } else {
            s as usize
        },
        None => {
            let per = if per_slot_mb < 1 {
                1
            } else {
                per_slot_mb
            };
            let by_mem = (if mem_mb / per < 1 {
                1
            } else {
                (mem_mb / per) as u64
            }) as usize;
            if cores < by_mem {
                cores
            } else {
                by_mem
            }
        },
    }
}

/// The number of concurrent shard jobs to start with: the user's choice (one at
/// least), else as many as there are cores, or slots' worth of memory where that
/// is less (one at least).
pub fn eval_slots(cores: usize, mem_mb: u64, per_slot_mb: u64, user: Option<u64>) -> (slots: usize)
    ensures
        slots == slot_count(cores, mem_mb, per_slot_mb, user),
{
    match user {
        Some(s) => {
            let s: usize = s as usize;
            if s < 1 {
                1
            } else {
                s
            }
        },
        None => {
            let per: u64 = if per_slot_mb < 1 {
                1
            } else {
                per_slot_mb
            };
            let fit: u64 = mem_mb / per;
            let by_mem: usize = (if fit < 1 {
                1
            } else {
                fit
            }) as usize;
            if cores < by_mem {
                cores
            } else {
                by_mem
            }
        },
    }
}

/// [`eval_slots`] for a machine of `cores` cores (four where it does not say) and
/// `mem_mb` MiB.
pub fn default_slots(cores: Option<usize>, mem_mb: u64, user: Option<u64>) -> (slots: usize)
    ensures
        slots == slot_count(
            match cores {
                Some(n) => n,
                None => 4,
            },
            mem_mb,
            SLOT_MEM_MB,
            user,
        ),
{
    let cores: usize = match cores {
        Some(n) => n,
        None => 4,
    };
    eval_slots(cores, mem_mb, SLOT_MEM_MB, user)
}

/// [`eval_slots`] for the evaluation of tests, each worker of which may take a whole
/// system's worth of memory.
pub fn tests_slots(cores: Option<usize>, mem_mb: u64, user: Option<u64>) -> (slots: usize)
    ensures
        slots == slot_count(
            match cores {
                Some(n) => n,
                None => 4,
            },
            mem_mb,
            TESTS_SLOT_MEM_MB,
            user,
        ),
{
    let cores: usize = match cores {
        Some(n) => n,
        None => 4,
    };
    eval_slots(cores, mem_mb, TESTS_SLOT_MEM_MB, user)
}

/// A machine with a core gets a slot.
pub proof fn lemma_some_slot(cores: usize, mem_mb: u64, per_slot_mb: u64)
    requires
        cores >= 1,
        mem_mb / (if per_slot_mb < 1 {
            1
        } else {
            per_slot_mb
        }) <= usize::MAX,
    ensures
        1 <= slot_count(cores, mem_mb, per_slot_mb, None) <= cores,
{
}

// --- laws -------------------------------------------------------------------

/// Without a wish of the user there are as many slots as memory and cores allow, and one
/// at least where there is a core: no more than the cores, and no more than fit into the
/// memory unless it is one; and either all cores are used or one more slot does not fit.
/// A wish is granted, but for no slots at all.
pub proof fn lemma_slots(cores: usize, mem_mb: u64, per_slot_mb: u64, wish: u64)
    requires
        cores >= 1,
        per_slot_mb >= 1,
        mem_mb <= usize::MAX,
        wish <= usize::MAX,
    ensures
        ({
            let slots = slot_count(cores, mem_mb, per_slot_mb, None);
            &&& 1 <= slots <= cores
            &&& slots == 1 || slots * per_slot_mb <= mem_mb
            &&& slots == cores || (slots + 1) * per_slot_mb > mem_mb
        }),
        slot_count(cores, mem_mb, per_slot_mb, Some(wish)) == (if wish == 0 {
            1
        } else {
            wish as usize
        }),
{
    let slots = slot_count(cores, mem_mb, per_slot_mb, None);
    let fit = mem_mb as int / per_slot_mb as int;
    vstd::arithmetic::div_mod::lemma_fundamental_div_mod(mem_mb as int, per_slot_mb as int);
    vstd::arithmetic::div_mod::lemma_mod_bound(mem_mb as int, per_slot_mb as int);
    vstd::arithmetic::div_mod::lemma_div_pos_is_pos(mem_mb as int, per_slot_mb as int);
    assert(fit <= mem_mb) by {
        vstd::arithmetic::div_mod::lemma_div_nonincreasing(mem_mb as int, per_slot_mb as int);
    }
    assert(fit * per_slot_mb <= mem_mb < (fit + 1) * per_slot_mb) by (nonlinear_arith)
        requires
            mem_mb == per_slot_mb * fit + mem_mb as int % per_slot_mb as int,
            0 <= mem_mb as int % (per_slot_mb as int) < per_slot_mb,
    ;
    if slots as int <= fit {
        assert(slots * per_slot_mb <= fit * per_slot_mb) by (nonlinear_arith)
            requires
                slots as int <= fit,
                per_slot_mb >= 1,
        ;
    }
    if slots != cores {
        assert((slots + 1) * per_slot_mb >= (fit + 1) * per_slot_mb) by (nonlinear_arith)
            requires
                slots as int >= fit,
                per_slot_mb >= 1,
        ;
    }
}

/// The least limit is one of those that are numbers, and none of them is less.
pub proof fn lemma_least_limit(contents: Seq<Seq<char>>)
    ensures
        least_limit(contents) is None <==> forall|i: int|
            0 <= i < contents.len() ==> u64_value(trimmed(#[trigger] contents[i])) is None,
        least_limit(contents) matches Some(least) ==> (exists|i: int|
            0 <= i < contents.len() && u64_value(trimmed(#[trigger] contents[i])) == Some(least))
            && forall|i: int|
            0 <= i < contents.len() ==> (u64_value(trimmed(#[trigger] contents[i])) matches Some(v)
                ==> least <= v),
    decreases contents.len(),
{
    if contents.len() > 0 {
        let front = contents.drop_last();
        let n = contents.len() - 1;
        lemma_least_limit(front);
        assert forall|i: int| 0 <= i < front.len() implies front[i] == contents[i] by {}
        assert(contents[n] == contents.last());
        match least_limit(front) {
            Some(a) => {
                let i = choose|i: int|
                    0 <= i < front.len() && u64_value(trimmed(#[trigger] front[i])) == Some(a);
                assert(u64_value(trimmed(contents[i])) == Some(a));
            },
            None => {
                assert forall|i: int| 0 <= i < n implies u64_value(
                    trimmed(#[trigger] contents[i]),
                ) is None by {
                    assert(front[i] == contents[i]);
                }
            },
        }
        assert forall|i: int| 0 <= i < contents.len() implies (u64_value(
            trimmed(#[trigger] contents[i]),
        ) matches Some(v) ==> least_limit(contents) matches Some(least) && least <= v) by {
            if i < n {
                assert(front[i] == contents[i]);
            }
        }
    }
}

/// A line is found by its prefix where it is the first one that starts so.
pub proof fn lemma_first_with_prefix(lines: Seq<Seq<char>>, prefix: Seq<char>, k: int)
    requires
        0 <= k <= lines.len(),
        forall|i: int| 0 <= i < k ==> !prefix.is_prefix_of(#[trigger] lines[i]),
        k < lines.len() ==> prefix.is_prefix_of(lines[k]),
    ensures
        first_with_prefix(lines, prefix) == (if k < lines.len() {
            Some(lines[k].skip(prefix.len() as int))
        } else {
            None
        }),
        first_starting(lines, prefix) == (if k < lines.len() {
            Some(lines[k])
        } else {
            None
        }),
    decreases lines.len(),
{
    if k > 0 {
        assert(!prefix.is_prefix_of(lines[0]));
        let rest = lines.skip(1);
        assert forall|i: int| 0 <= i < k - 1 implies !prefix.is_prefix_of(#[trigger] rest[i]) by {
            assert(!prefix.is_prefix_of(lines[i + 1]));
        }
        lemma_first_with_prefix(rest, prefix, k - 1);
    }
}

/// The memory of a machine is what its memory information says, in whole mebibytes; where
/// that says nothing, what was asked of the system otherwise; and where that does not
/// either, eight gibibytes.
pub proof fn lemma_physical_memory(meminfo: Option<Seq<char>>, sysctl: Option<Seq<char>>)
    ensures
        ({
            let mb = physical_mb(meminfo, sysctl);
            let kb = match meminfo {
                Some(text) => meminfo_kb(text),
                None => None,
            };
            let bytes = match sysctl {
                Some(text) => u64_value(trimmed(text)),
                None => None,
            };
            &&& kb is Some ==> 1024 * mb <= kb->0 < 1024 * mb + 1024
            &&& kb is None && bytes is Some ==> 1024 * (1024 * mb) <= bytes->0 < 1024 * (1024 * mb
                + 1024)
            &&& kb is None && bytes is None ==> mb == 8192
        }),
{
    let mb = physical_mb(meminfo, sysctl);
    let kb = match meminfo {
        Some(text) => meminfo_kb(text),
        None => None,
    };
    let bytes = match sysctl {
        Some(text) => u64_value(trimmed(text)),
        None => None,
    };
    if kb is Some {
        assert(mb == kb->0 as int / 1024);
    } else if bytes is Some {
        let b = bytes->0 as int;
        let kib = b / 1024;
        assert(mb == kib / 1024);
        assert(1024 * kib <= b < 1024 * kib + 1024);
        assert(1024 * mb <= kib < 1024 * mb + 1024);
    } else {
        assert(mb == 8192);
    }
}

/// The total memory is the second word of the first line that starts with its name.
pub proof fn lemma_meminfo(text: Seq<char>, k: int)
    requires
        0 <= k < line_texts(text).len(),
        forall|i: int| 0 <= i < k ==> !"MemTotal:"@.is_prefix_of(#[trigger] line_texts(text)[i]),
        "MemTotal:"@.is_prefix_of(line_texts(text)[k]),
    ensures
        meminfo_kb(text) == (if words(line_texts(text)[k]).len() > 1 {
            u64_value(words(line_texts(text)[k])[1])
        } else {
            None
        }),
{
    lemma_first_with_prefix(line_texts(text), "MemTotal:"@, k);
}

/// A slot of the full evaluation takes two gibibytes and one of tests twice that: where
/// memory decides, and one slot at least fits, there are half as many of the latter.
pub proof fn lemma_slot_memory(cores: usize, gib: u64)
    requires
        4 <= gib <= 0x10_0000,
        gib <= cores,
    ensures
        slot_count(cores, (gib * 1024) as u64, SLOT_MEM_MB, None) == gib / 2,
        slot_count(cores, (gib * 1024) as u64, TESTS_SLOT_MEM_MB, None) == gib / 4,
{
    assert(gib * 1024 <= 0x4000_0000);
    assert((gib * 1024) / 2048 == gib / 2);
    assert((gib * 1024) / 4096 == gib / 4);
}

} // verus!
