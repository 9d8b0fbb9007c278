//! Substituter (binary cache) facts: is a derivation's output already built and
//! available from the cache? A signal of success only: a narinfo either exists
//! or it does not.

use vstd::hash_map::StringHashMap;
use vstd::prelude::*;

use crate::outside::{lossy, lossy_text};
use crate::search::{
    lemma_char_position_is, lemma_last_part, line_texts, parts, split_lines, trim, trimmed,
};
use crate::text::{chars_of, texts};

verus! {

/// The binary cache that is asked.
pub const CACHE: &'static str = "https://cache.nixos.org";

/// How many narinfo probes run at once.
pub const PROBE_CONCURRENCY: usize = 16;

/// What stands before the first `-` of the last component of a path.
pub open spec fn hash_of(path: Seq<char>) -> Seq<char> {
    parts(parts(path, '/').last(), '-')[0]
}

/// The store-path hash component of a `/nix/store/<hash>-name` path.
pub fn store_hash(path: &str) -> (hash: Option<&str>)
    ensures
        hash matches Some(h) && h@ == hash_of(path@),
{
    let cs = chars_of(path);
    let mut from: usize = cs.len();
    while from > 0 && cs[from - 1] != '/'
        invariant
            from <= cs@.len(),
            forall|j: int| from <= j < cs@.len() ==> cs@[j] != '/',
        decreases from,
    {
        from -= 1;
    }
    let ghost name = path@.skip(from as int);
    proof {
        lemma_last_part(path@, '/', from as int);
    }
    let mut to: usize = from;
    while to < cs.len() && cs[to] != '-'
        invariant
            from <= to <= cs@.len(),
            cs@ == path@,
            name == path@.skip(from as int),
            forall|j: int| 0 <= j < to - from ==> #[trigger] name[j] != '-',
        decreases cs@.len() - to,
    {
        assert(name[to - from] == cs@[to as int]);
        to += 1;
    }
    proof {
        lemma_char_position_is(name, '-', to - from);
        assert(name.take(to - from) =~= path@.subrange(from as int, to as int));
    }
    Some(path.substring_char(from, to))
}

/// The lines of a text that are not blank, without the white space around them.
pub open spec fn nonblank_lines(s: Seq<char>) -> Seq<Seq<char>> {
    line_texts(s).map_values(|l: Seq<char>| trimmed(l)).filter(|l: Seq<char>| l.len() > 0)
}

/// Non-empty trimmed lines of a command's output.
pub fn lines(bytes: &[u8]) -> (out: Vec<String>)
    ensures
        texts(out@) == nonblank_lines(lossy_text(bytes@)),
{
    lines_of(lossy(bytes).as_str())
}

/// Non-empty trimmed lines of a text.
pub fn lines_of(text: &str) -> (out: Vec<String>)
    ensures
        texts(out@) == nonblank_lines(text@),
{
    let all = split_lines(text);
    let ghost ls = line_texts(text@).map_values(|l: Seq<char>| trimmed(l));
    let ghost keep = |l: Seq<char>| l.len() > 0;
    let mut out: Vec<String> = Vec::new();
    let mut i: usize = 0;
    proof {
        reveal(Seq::filter);
        assert(texts(all@).len() == all@.len());
        assert(ls.take(0) =~= Seq::<Seq<char>>::empty());
        assert(texts(out@) =~= Seq::<Seq<char>>::empty());
    }
    while i < all.len()
        invariant
            i <= all@.len(),
            texts(all@) == line_texts(text@),
            ls == line_texts(text@).map_values(|l: Seq<char>| trimmed(l)),
            ls.len() == all@.len(),
            keep == (|l: Seq<char>| l.len() > 0),
            texts(out@) == ls.take(i as int).filter(keep),
        decreases all@.len() - i,
    {
        let line = trim(all[i].as_str());
        let ghost before = texts(out@);
        proof {
            reveal(Seq::filter);
            assert(texts(all@)[i as int] == all@[i as int]@);
            assert(ls[i as int] == line@);
            assert(ls.take(i + 1).drop_last() =~= ls.take(i as int));
            assert(ls.take(i + 1).last() == line@);
        }
        if line.unicode_len() > 0 {
            out.push(line.to_owned());
            assert(texts(out@) =~= before.push(line@));
        }
        i += 1;
    }
    assert(ls.take(i as int) =~= ls);
    out
}

/// The URL that answers whether an output path is in the cache.
pub open spec fn narinfo_text(out_path: Seq<char>) -> Seq<char> {
    CACHE@ + "/"@ + hash_of(out_path) + ".narinfo"@
}

/// The URL that answers whether an output path is in the cache.
pub fn narinfo_url(out_path: &str) -> (url: Option<String>)
    ensures
        url matches Some(u) && u@ == narinfo_text(out_path@),
{
    match store_hash(out_path) {
        Some(hash) => {
            let mut url = String::new();
            url.append(CACHE);
            url.append("/");
            url.append(hash);
            url.append(".narinfo");
            assert(url@ =~= narinfo_text(out_path@));
            Some(url)
        },
        None => None,
    }
}

/// Whether a derivation can be substituted without a local build, from what the
/// probes of its outputs answered: every output has to be in the cache, since one
/// that is missing would still be built. One without outputs, or whose outputs could
/// not be queried (`None`), cannot.
pub fn substitutable(probes: Option<&Vec<bool>>) -> (yes: bool)
    ensures
        yes == (match probes {
            Some(hits) => hits@.len() > 0 && forall|i: int|
                0 <= i < hits@.len() ==> #[trigger] hits@[i],
            None => false,
        }),
{
    match probes {
        Some(hits) => {
            let mut i: usize = 0;
            while i < hits.len()
                invariant
                    i <= hits@.len(),
                    probes == Some(hits),
                    forall|k: int| 0 <= k < i ==> #[trigger] hits@[k],
                decreases hits@.len() - i,
            {
                if !hits[i] {
                    assert(!hits@[i as int]);
                    return false;
                }
                i += 1;
            }
            hits.len() > 0
        },
        None => false,
    }
}

/// Whether the probes of a derivation's outputs found each of them, and there is one.
pub open spec fn all_hit(probes: Option<Vec<bool>>) -> bool {
    match probes {
        Some(hits) => hits@.len() > 0 && forall|i: int|
            0 <= i < hits@.len() ==> #[trigger] hits@[i],
        None => false,
    }
}

/// What the probes of the first `n` of some derivations say of each; where one stands
/// there twice, the later answer counts.
pub open spec fn answers(
    drvs: Seq<Seq<char>>,
    probes: Seq<Option<Vec<bool>>>,
    n: int,
) -> Map<Seq<char>, bool>
    decreases n,
{
    if n <= 0 {
        Map::empty()
    } else {
        answers(drvs, probes, n - 1).insert(drvs[n - 1], all_hit(probes[n - 1]))
    }
}

/// Which of some derivations need not be built, from what the probes of the outputs
/// of each answered.
pub fn in_cache_many(drvs: &[String], probes: &[Option<Vec<bool>>]) -> (found: StringHashMap<bool>)
    requires
        probes@.len() == drvs@.len(),
    ensures
        found@ == answers(texts(drvs@), probes@, drvs@.len() as int),
        forall|d: Seq<char>| #[trigger] found@.contains_key(d) <==> texts(drvs@).contains(d),
        texts(drvs@).no_duplicates() ==> forall|i: int|
            0 <= i < drvs@.len() ==> found@[#[trigger] texts(drvs@)[i]] == all_hit(probes@[i]),
{
    let mut found: StringHashMap<bool> = StringHashMap::new();
    let mut i: usize = 0;
    while i < drvs.len()
        invariant
            i <= drvs@.len(),
            probes@.len() == drvs@.len(),
            found@ == answers(texts(drvs@), probes@, i as int),
        decreases drvs@.len() - i,
    {
        let hit = substitutable(probes[i].as_ref());
        found.insert(drvs[i].clone(), hit);
        i += 1;
    }
    proof {
        lemma_answers(texts(drvs@), probes@, drvs@.len() as int);
        assert(texts(drvs@).take(drvs@.len() as int) =~= texts(drvs@));
    }
    found
}

/// There is an answer for each derivation that was probed, and for no other.
proof fn lemma_answers(drvs: Seq<Seq<char>>, probes: Seq<Option<Vec<bool>>>, n: int)
    requires
        0 <= n <= drvs.len(),
    ensures
        forall|d: Seq<char>| #[trigger]
            answers(drvs, probes, n).contains_key(d) <==> drvs.take(n).contains(d),
        drvs.no_duplicates() ==> forall|i: int|
            0 <= i < n ==> answers(drvs, probes, n)[#[trigger] drvs[i]] == all_hit(probes[i]),
    decreases n,
{
    if n > 0 {
        lemma_answers(drvs, probes, n - 1);
        let before = drvs.take(n - 1);
        assert forall|d: Seq<char>| #[trigger]
            answers(drvs, probes, n).contains_key(d) <==> drvs.take(n).contains(d) by {
            if drvs.take(n).contains(d) {
                let i = choose|i: int| 0 <= i < n && drvs.take(n)[i] == d;
                if i < n - 1 {
                    assert(before[i] == d);
                }
            }
            if before.contains(d) {
                let i = choose|i: int| 0 <= i < before.len() && before[i] == d;
                assert(drvs.take(n)[i] == d);
            }
            assert(drvs.take(n)[n - 1] == drvs[n - 1]);
            assert(answers(drvs, probes, n - 1).contains_key(d) <==> before.contains(d));
        }
    }
}

/// How many workers probe `drvs` derivations: none for none, and no more than
/// there are derivations.
pub fn probe_workers(drvs: usize) -> (workers: usize)
    ensures
        workers == (if drvs < PROBE_CONCURRENCY {
            drvs
        } else {
            PROBE_CONCURRENCY
        }),
{
    if drvs < PROBE_CONCURRENCY {
        drvs
    } else {
        PROBE_CONCURRENCY
    }
}

// --- laws -------------------------------------------------------------------

/// The hash of a store path is what stands before the first dash of its last part, and its
/// narinfo is asked for by that hash.
pub proof fn lemma_hash_of_path(dir: Seq<char>, hash: Seq<char>, name: Seq<char>)
    requires
        !hash.contains('/'),
        !hash.contains('-'),
        !name.contains('/'),
    ensures
        hash_of(dir + "/"@ + hash + "-"@ + name) == hash,
        narinfo_text(dir + "/"@ + hash + "-"@ + name) == "https://cache.nixos.org/"@ + hash
            + ".narinfo"@,
{
    reveal_strlit("/");
    reveal_strlit("-");
    let last = hash + "-"@ + name;
    let path = dir + "/"@ + hash + "-"@ + name;
    let k = dir.len() as int + 1;
    assert(path[k - 1] == '/');
    assert forall|j: int| k <= j < path.len() implies path[j] != '/' by {
        if j < k + hash.len() {
            assert(hash.contains(hash[j - k]));
        } else if j > k + hash.len() {
            assert(name.contains(name[j - k - hash.len() - 1]));
        }
    }
    crate::search::lemma_last_part(path, '/', k);
    assert(path.skip(k) =~= last);
    assert forall|j: int| 0 <= j < hash.len() implies last[j] != '-' by {
        assert(hash.contains(hash[j]));
    }
    crate::search::lemma_char_position_is(last, '-', hash.len() as int);
    assert(last.take(hash.len() as int) =~= hash);
    assert("https://cache.nixos.org"@ + "/"@ =~= "https://cache.nixos.org/"@) by {
        reveal_strlit("https://cache.nixos.org");
        reveal_strlit("https://cache.nixos.org/");
    }
}

/// A line is kept, trimmed, if and only if something is left of it.
pub proof fn lemma_nonblank_lines(s: Seq<char>, line: Seq<char>)
    ensures
        nonblank_lines(s).contains(line) <==> line.len() > 0 && exists|i: int|
            0 <= i < line_texts(s).len() && trimmed(#[trigger] line_texts(s)[i]) == line,
{
    let all = line_texts(s).map_values(|l: Seq<char>| trimmed(l));
    let pred = |l: Seq<char>| l.len() > 0;
    let kept = all.filter(pred);
    if kept.contains(line) {
        let k = choose|k: int| 0 <= k < kept.len() && kept[k] == line;
        all.lemma_filter_pred(pred, k);
        all.lemma_filter_contains_rev(pred, line);
        let i = choose|i: int| 0 <= i < all.len() && all[i] == line;
        assert(trimmed(line_texts(s)[i]) == line);
    }
    if line.len() > 0 && exists|i: int|
        0 <= i < line_texts(s).len() && trimmed(#[trigger] line_texts(s)[i]) == line {
        let i = choose|i: int|
            0 <= i < line_texts(s).len() && trimmed(#[trigger] line_texts(s)[i]) == line;
        assert(all[i] == line);
        all.lemma_filter_contains(pred, i);
    }
}

/// A derivation is in the cache if and only if its outputs are known, there are some, and
/// none of them is missing there.
pub proof fn lemma_all_hit(probes: Option<Vec<bool>>)
    ensures
        all_hit(probes) <==> (probes matches Some(hits) && hits@.len() > 0 && !hits@.contains(
            false,
        )),
{
    match probes {
        Some(hits) => {
            if hits@.contains(false) {
                let i = choose|i: int| 0 <= i < hits@.len() && hits@[i] == false;
                assert(!hits@[i]);
            } else {
                assert forall|i: int| 0 <= i < hits@.len() implies #[trigger] hits@[i] by {
                    if !hits@[i] {
                        assert(hits@.contains(false));
                    }
                }
            }
        },
        None => {},
    }
}

/// Of a derivation that was probed more than once the last probe is the answer.
pub proof fn lemma_last_answer(
    drvs: Seq<Seq<char>>,
    probes: Seq<Option<Vec<bool>>>,
    n: int,
    i: int,
)
    requires
        0 <= i < n <= drvs.len(),
        probes.len() == drvs.len(),
        forall|j: int| i < j < n ==> #[trigger] drvs[j] != drvs[i],
    ensures
        answers(drvs, probes, n).contains_key(drvs[i]),
        answers(drvs, probes, n)[drvs[i]] == all_hit(probes[i]),
    decreases n,
{
    if i < n - 1 {
        assert(drvs[n - 1] != drvs[i]);
        lemma_last_answer(drvs, probes, n - 1, i);
    }
}

} // verus!
