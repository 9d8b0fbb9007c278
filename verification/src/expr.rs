//! The Nix expressions that the evaluator is given.

use vstd::prelude::*;

use crate::search::{
    holds, lacks, lemma_lacks, lemma_position_of, lemma_replaced_after, lemma_replaced_at,
    lemma_replaced_lacking, replace, replaced, without_prefix,
};
use crate::text::texts;

verus! {

/// `s` as it stands inside a Nix `"..."` literal: a backslash before each
/// backslash, each double quote, and each dollar sign that a brace follows.
pub open spec fn escaped(s: Seq<char>) -> Seq<char>
    decreases s.len(),
{
    if s.len() == 0 {
        Seq::empty()
    } else if s[0] == '\\' || s[0] == '"' || (s[0] == '$' && s.len() > 1 && s[1] == '{') {
        seq!['\\', s[0]] + escaped(s.skip(1))
    } else {
        seq![s[0]] + escaped(s.skip(1))
    }
}

/// What the inside of a Nix `"..."` literal denotes: nothing where it is not one
/// plain text, because the literal ends, or an interpolation starts, in it.
pub open spec fn literal_value(t: Seq<char>) -> Option<Seq<char>>
    decreases t.len(),
{
    if t.len() == 0 {
        Some(Seq::empty())
    } else if t[0] == '\\' {
        if t.len() == 1 {
            None
        } else {
            let c = if t[1] == 'n' {
                '\n'
            } else if t[1] == 'r' {
                '\r'
            } else if t[1] == 't' {
                '\t'
            } else {
                t[1]
            };
            match literal_value(t.skip(2)) {
                Some(rest) => Some(seq![c] + rest),
                None => None,
            }
        }
    } else if t[0] == '"' || (t[0] == '$' && t.len() > 1 && t[1] == '{') {
        None
    } else {
        match literal_value(t.skip(1)) {
            Some(rest) => Some(seq![t[0]] + rest),
            None => None,
        }
    }
}

/// Whatever a text holds, the literal that it is escaped for denotes that text.
pub proof fn lemma_literal_round_trip(s: Seq<char>)
    ensures
        literal_value(escaped(s)) == Some(s),
    decreases s.len(),
{
    if s.len() > 0 {
        let rest = s.skip(1);
        let t = escaped(s);
        lemma_literal_round_trip(rest);
        assert(s =~= seq![s[0]] + rest);
        if s[0] == '\\' || s[0] == '"' || (s[0] == '$' && s.len() > 1 && s[1] == '{') {
            assert(t.skip(2) =~= escaped(rest));
        } else {
            assert(t.skip(1) =~= escaped(rest));
            if s[0] == '$' && rest.len() > 0 {
                assert(t[1] == escaped(rest)[0]);
                assert(rest[0] == s[1]);
            }
        }
    } else {
        assert(escaped(s) =~= s);
    }
}

/// Escapes a text for a Nix `"..."` literal.
pub fn nix_escape(s: &str) -> (out: String)
    ensures
        out@ == escaped(s@),
{
    let cs = crate::text::chars_of(s);
    let mut out = String::new();
    let mut i: usize = 0;
    assert(cs@.skip(0) =~= s@);
    assert(out@ + escaped(s@) =~= escaped(s@));
    while i < cs.len()
        invariant
            i <= cs@.len(),
            out@ + escaped(cs@.skip(i as int)) == escaped(s@),
        decreases cs@.len() - i,
    {
        let c = cs[i];
        let ghost rest = cs@.skip(i as int);
        let ghost before = out@;
        assert(rest.skip(1) =~= cs@.skip(i + 1));
        if c == '\\' || c == '"' || (c == '$' && cs.len() - i > 1 && cs[i + 1] == '{') {
            out.push('\\');
            assert(out@ =~= before + seq!['\\']);
        }
        out.push(c);
        assert(out@ + escaped(cs@.skip(i + 1)) =~= before + escaped(rest));
        i += 1;
    }
    assert(out@ + escaped(cs@.skip(i as int)) =~= out@);
    out
}

/// A text as a Nix literal.
pub open spec fn literal(s: Seq<char>) -> Seq<char> {
    "\""@ + escaped(s) + "\""@
}

/// Texts as the inside of a Nix list.
pub open spec fn literals(items: Seq<Seq<char>>) -> Seq<char>
    decreases items.len(),
{
    if items.len() == 0 {
        Seq::empty()
    } else {
        literals(items.drop_last()) + (literal(items.last()) + " "@)
    }
}

/// Appends a text as a Nix literal.
fn push_literal(out: &mut String, s: &str)
    ensures
        final(out)@ == old(out)@ + literal(s@),
{
    let ghost start = out@;
    out.append("\"");
    out.append(nix_escape(s).as_str());
    out.append("\"");
    assert(out@ =~= start + literal(s@));
}

/// A space-separated Nix string-list body: `"a" "b" `.
pub fn nix_string_list(items: &[String]) -> (out: String)
    ensures
        out@ == literals(texts(items@)),
{
    let mut out = String::new();
    let ghost all = texts(items@);
    let mut i: usize = 0;
    assert(all.take(0) =~= Seq::<Seq<char>>::empty());
    while i < items.len()
        invariant
            i <= items@.len(),
            all == texts(items@),
            out@ == literals(all.take(i as int)),
        decreases items@.len() - i,
    {
        assert(all.take(i + 1).drop_last() =~= all.take(i as int));
        assert(all.take(i + 1).last() == items@[i as int]@);
        let ghost before = out@;
        push_literal(&mut out, items[i].as_str());
        out.append(" ");
        assert(out@ =~= before + (literal(items@[i as int]@) + " "@));
        i += 1;
    }
    assert(all.take(i as int) =~= all);
    out
}

/// The one nixpkgs configuration that every evaluation runs under.
pub const EVAL_CONFIG: &'static str =
    "{ allowBroken = true; allowUnfree = true; allowUnsupportedSystem = true; allowInsecurePredicate = _: true; }";

/// The import of the package set of a revision for a system.
pub open spec fn import_text(repo: Seq<char>, rev: Seq<char>, system: Seq<char>) -> Seq<char> {
    "import (builtins.fetchGit { url = "@ + literal(repo) + "; rev = "@ + literal(rev)
        + "; }) { system = "@ + literal(system) + "; config = "@ + EVAL_CONFIG@ + "; }"@
}

/// The whole-package-set expression. The source is fetched at `rev`, a commit;
/// the evaluation depends only on the tree that it resolves to.
pub fn build_expr(repo: &str, rev: &str, system: &str) -> (out: String)
    ensures
        out@ == import_text(repo@, rev@, system@),
{
    let mut out = String::new();
    out.append("import (builtins.fetchGit { url = ");
    push_literal(&mut out, repo);
    out.append("; rev = ");
    push_literal(&mut out, rev);
    out.append("; }) { system = ");
    push_literal(&mut out, system);
    out.append("; config = ");
    out.append(EVAL_CONFIG);
    out.append("; }");
    assert(out@ =~= import_text(repo@, rev@, system@));
    out
}

/// The expression for the top-level attribute names of a package set.
pub fn names_expr(repo: &str, rev: &str, system: &str) -> (out: String)
    ensures
        out@ == "builtins.attrNames ("@ + import_text(repo@, rev@, system@) + ")"@,
{
    let mut out = String::new();
    out.append("builtins.attrNames (");
    out.append(build_expr(repo, rev, system).as_str());
    out.append(")");
    assert(out@ =~= "builtins.attrNames ("@ + import_text(repo@, rev@, system@) + ")"@);
    out
}

/// The expression for one shard: the import, narrowed to `names`.
pub open spec fn shard_text(
    repo: Seq<char>,
    rev: Seq<char>,
    system: Seq<char>,
    names: Seq<Seq<char>>,
) -> Seq<char> {
    "let pkgs = "@ + import_text(repo, rev, system)
        + "; in builtins.listToAttrs (map (n: { name = n; value = pkgs.${n}; }) [ "@ + literals(
        names,
    ) + "])"@
}

/// The evaluation expression for one shard: the same import as the whole-set walk,
/// narrowed to `names`. Each value stays a thunk, so that an attribute that fails
/// to evaluate errors only itself.
pub fn shard_expr(repo: &str, rev: &str, system: &str, names: &[String]) -> (out: String)
    ensures
        out@ == shard_text(repo@, rev@, system@, texts(names@)),
{
    let mut out = String::new();
    out.append("let pkgs = ");
    out.append(build_expr(repo, rev, system).as_str());
    out.append("; in builtins.listToAttrs (map (n: { name = n; value = pkgs.${n}; }) [ ");
    out.append(nix_string_list(names).as_str());
    out.append("])");
    assert(out@ =~= shard_text(repo@, rev@, system@, texts(names@)));
    out
}

/// The expression that selects exactly `paths`.
pub open spec fn select_text(
    repo: Seq<char>,
    rev: Seq<char>,
    system: Seq<char>,
    paths: Seq<Seq<char>>,
) -> Seq<char> {
    "let pkgs = "@ + import_text(repo, rev, system)
        + "; lib = pkgs.lib; in builtins.listToAttrs (map (p: { name = p; value = lib.attrByPath (lib.splitString \".\" p) null pkgs; }) [ "@
        + literals(paths) + "])"@
}

/// A job expression that selects exactly `paths` out of the package set, each an
/// attribute path that may be dotted.
pub fn select_expr(repo: &str, rev: &str, system: &str, paths: &[String]) -> (out: String)
    ensures
        out@ == select_text(repo@, rev@, system@, texts(paths@)),
{
    let mut out = String::new();
    out.append("let pkgs = ");
    out.append(build_expr(repo, rev, system).as_str());
    out.append(
        "; lib = pkgs.lib; in builtins.listToAttrs (map (p: { name = p; value = lib.attrByPath (lib.splitString \".\" p) null pkgs; }) [ ",
    );
    out.append(nix_string_list(paths).as_str());
    out.append("])");
    assert(out@ =~= select_text(repo@, rev@, system@, texts(paths@)));
    out
}

/// The expression that exposes the `passthru.tests` of packages as a job tree has places
/// for the package set and for the packages. This is what stands before the place for
/// the package set.
pub const TESTS_OPEN: &'static str = r#"
let
  pkgs = "#;

/// What stands between the two places.
pub const TESTS_MIDDLE: &'static str = r#";
  lib = pkgs.lib;
  host = pkgs.stdenv.hostPlatform;
  attrs = [ "#;

/// What ends the list of packages.
pub const TESTS_CLOSE: &'static str = r#"];
"#;

/// What follows the list. Each package becomes a node that can be recursed into, whose
/// `tests` are forced one attribute at a time. `mark` computes the availability marks
/// that a test does not carry by itself, and stops at derivations.
pub const TESTS_BODY: &'static str = r#"  # Inject the *computed* meta-blocked bits (see build_tests_expr doc) into every
  # test derivation, recursing through `tests` sub-attrsets. Stops at derivations
  # (never forces their internals); each recursed leaf goes through `tryEval`, so
  # a test that throws when forced is passed through untouched to error on its own.
  mark = t:
    if lib.isDerivation t then
      t // {
        meta = (t.meta or { }) // {
          unsupported = !(lib.meta.availableOn host t);
          insecure = (t.meta.knownVulnerabilities or [ ]) != [ ];
        };
      }
    else if lib.isAttrs t then
      lib.mapAttrs (_: v: let r = builtins.tryEval (mark v); in if r.success then r.value else v) t
      // { recurseForDerivations = true; }
    else t;
  node = name: {
    recurseForDerivations = true;
    # Forced per-attr in a nix-eval-jobs worker: a package that fails to evaluate
    # errors only its own `<pkg>.tests`, never the whole run.
    tests =
      let
        pkg = lib.attrByPath (lib.splitString "." name) null pkgs;
        t = if pkg == null then null else (pkg.tests or null);
      in
        if lib.isDerivation t || lib.isAttrs t then mark t
        else { recurseForDerivations = true; };
  };
in
lib.listToAttrs (map (name: lib.nameValuePair name (node name)) attrs)
// { recurseForDerivations = true; }
"#;

/// The expression that exposes tests, with its places.
pub open spec fn tests_template() -> Seq<char> {
    TESTS_OPEN@ + ("@PKGS@"@ + (TESTS_MIDDLE@ + ("@ATTRS@"@ + (TESTS_CLOSE@ + TESTS_BODY@))))
}

/// The expression that exposes the tests of `attrs`.
pub open spec fn tests_text(
    repo: Seq<char>,
    rev: Seq<char>,
    system: Seq<char>,
    attrs: Seq<Seq<char>>,
) -> Seq<char> {
    replaced(
        replaced(tests_template(), "@PKGS@"@, import_text(repo, rev, system)),
        "@ATTRS@"@,
        literals(attrs),
    )
}

/// The expression that exposes the `passthru.tests` of `attrs` at one revision.
pub fn build_tests_expr(repo: &str, rev: &str, system: &str, attrs: &[String]) -> (out: String)
    ensures
        out@ == tests_text(repo@, rev@, system@, texts(attrs@)),
{
    proof {
        reveal_strlit("@PKGS@");
        reveal_strlit("@ATTRS@");
    }
    let list = nix_string_list(attrs);
    let mut template = String::new();
    template.append(TESTS_OPEN);
    template.append("@PKGS@");
    template.append(TESTS_MIDDLE);
    template.append("@ATTRS@");
    template.append(TESTS_CLOSE);
    template.append(TESTS_BODY);
    assert(template@ =~= tests_template());
    let with_pkgs = replace(template.as_str(), "@PKGS@", build_expr(repo, rev, system).as_str());
    replace(with_pkgs.as_str(), "@ATTRS@", list.as_str())
}

// --- reading an expression back ---------------------------------------------

/// What a Nix literal denotes from inside its quotes on, and what follows its closing
/// quote; nothing where it does not close, or an interpolation starts in it.
pub open spec fn read_inside(t: Seq<char>) -> Option<(Seq<char>, Seq<char>)>
    decreases t.len(),
{
    if t.len() == 0 {
        None
    } else if t[0] == '"' {
        Some((Seq::empty(), t.skip(1)))
    } else if t[0] == '\\' {
        if t.len() == 1 {
            None
        } else {
            let c = if t[1] == 'n' {
                '\n'
            } else if t[1] == 'r' {
                '\r'
            } else if t[1] == 't' {
                '\t'
            } else {
                t[1]
            };
            match read_inside(t.skip(2)) {
                Some((value, rest)) => Some((seq![c] + value, rest)),
                None => None,
            }
        }
    } else if t[0] == '$' && t.len() > 1 && t[1] == '{' {
        None
    } else {
        match read_inside(t.skip(1)) {
            Some((value, rest)) => Some((seq![t[0]] + value, rest)),
            None => None,
        }
    }
}

/// What the Nix literal at the start of a text denotes, and what follows it.
pub open spec fn read_literal(t: Seq<char>) -> Option<(Seq<char>, Seq<char>)> {
    if t.len() > 0 && t[0] == '"' {
        read_inside(t.skip(1))
    } else {
        None
    }
}

/// What the Nix literals at the start of a text denote, each with a blank after it, and
/// what follows them.
pub open spec fn read_literals(t: Seq<char>) -> (Seq<Seq<char>>, Seq<char>)
    decreases t.len(),
{
    match read_literal(t) {
        Some((value, rest)) => if 0 < rest.len() < t.len() && rest[0] == ' ' {
            let (more, after) = read_literals(rest.skip(1));
            (seq![value] + more, after)
        } else {
            (Seq::empty(), t)
        },
        None => (Seq::empty(), t),
    }
}

/// What the Nix literal that a text holds after `name` denotes, and what follows it.
pub open spec fn read_after(t: Option<Seq<char>>, name: Seq<char>) -> Option<
    (Seq<char>, Seq<char>),
> {
    match t {
        Some(t) => match without_prefix(t, name) {
            Some(rest) => read_literal(rest),
            None => None,
        },
        None => None,
    }
}

/// What is left after a literal was read.
pub open spec fn rest_of(read: Option<(Seq<char>, Seq<char>)>) -> Option<Seq<char>> {
    match read {
        Some((_, rest)) => Some(rest),
        None => None,
    }
}

/// What follows a prefix, where it stands there.
pub open spec fn stripped_of(t: Option<Seq<char>>, prefix: Seq<char>) -> Option<Seq<char>> {
    match t {
        Some(t) => without_prefix(t, prefix),
        None => None,
    }
}

/// What the import of a package set at the start of a text is of: the repository, the
/// revision and the system that its arguments denote, and what follows them.
pub open spec fn read_import(t: Seq<char>) -> Option<
    (Seq<char>, Seq<char>, Seq<char>, Seq<char>),
> {
    let url = read_after(Some(t), "import (builtins.fetchGit { url = "@);
    let rev = read_after(rest_of(url), "; rev = "@);
    let system = read_after(rest_of(rev), "; }) { system = "@);
    let config = stripped_of(rest_of(system), "; config = "@);
    let allowed = stripped_of(
        config,
        "{ allowBroken = true; allowUnfree = true; allowUnsupportedSystem = true; allowInsecurePredicate = _: true; }"@,
    );
    let after = stripped_of(allowed, "; }"@);
    match (url, rev, system, after) {
        (Some((url, _)), Some((rev, _)), Some((system, _)), Some(after)) => Some(
            (url, rev, system, after),
        ),
        _ => None,
    }
}

/// Reading what a text was escaped for gives the text back, whatever follows it.
proof fn lemma_read_inside(s: Seq<char>, after: Seq<char>)
    ensures
        read_inside(escaped(s) + seq!['"'] + after) == Some((s, after)),
    decreases s.len(),
{
    let t = escaped(s) + seq!['"'] + after;
    if s.len() == 0 {
        assert(escaped(s) =~= Seq::empty());
        assert(t.skip(1) =~= after);
        assert(s =~= Seq::empty());
    } else {
        let rest = s.skip(1);
        lemma_read_inside(rest, after);
        assert(s =~= seq![s[0]] + rest);
        if s[0] == '\\' || s[0] == '"' || (s[0] == '$' && s.len() > 1 && s[1] == '{') {
            assert(t.skip(2) =~= escaped(rest) + seq!['"'] + after);
        } else {
            assert(t.skip(1) =~= escaped(rest) + seq!['"'] + after);
            if s[0] == '$' {
                if rest.len() > 0 {
                    assert(t[1] == escaped(rest)[0]);
                    assert(rest[0] == s[1]);
                } else {
                    assert(escaped(rest) =~= Seq::empty());
                    assert(t[1] == '"');
                }
            }
        }
    }
}

/// Reading a literal gives back the text that it was made from, whatever follows it.
pub proof fn lemma_read_literal(s: Seq<char>, after: Seq<char>)
    ensures
        read_literal(literal(s) + after) == Some((s, after)),
{
    reveal_strlit("\"");
    let t = literal(s) + after;
    assert(t.skip(1) =~= escaped(s) + seq!['"'] + after);
    lemma_read_inside(s, after);
}

/// A list starts with its first item.
proof fn lemma_literals_front(items: Seq<Seq<char>>)
    requires
        items.len() > 0,
    ensures
        literals(items) == literal(items[0]) + " "@ + literals(items.skip(1)),
    decreases items.len(),
{
    let tail = items.skip(1);
    if items.len() == 1 {
        assert(literals(items.drop_last()) =~= Seq::empty());
        assert(literals(tail) =~= Seq::empty());
        assert(items.last() == items[0]);
        assert(literals(items) =~= literal(items[0]) + " "@ + literals(tail));
    } else {
        lemma_literals_front(items.drop_last());
        assert(items.drop_last().skip(1) =~= tail.drop_last());
        assert(literals(items) =~= literal(items[0]) + " "@ + literals(tail));
    }
}

/// Reading a list gives back the texts that it was made from, in their order, where
/// something else than a literal follows it.
pub proof fn lemma_read_literals(items: Seq<Seq<char>>, after: Seq<char>)
    requires
        after.len() > 0,
        after[0] != '"',
    ensures
        read_literals(literals(items) + after) == (items, after),
    decreases items.len(),
{
    let t = literals(items) + after;
    if items.len() == 0 {
        assert(t =~= after);
        assert(items =~= Seq::empty());
    } else {
        reveal_strlit(" ");
        let tail = items.skip(1);
        let rest = " "@ + (literals(tail) + after);
        lemma_literals_front(items);
        assert(t =~= literal(items[0]) + rest);
        lemma_read_literal(items[0], rest);
        lemma_read_literals(tail, after);
        assert(rest.skip(1) =~= literals(tail) + after);
        assert(literal(items[0]).len() > 0) by {
            reveal_strlit("\"");
        }
        assert(seq![items[0]] + tail =~= items);
    }
}

/// What stands after a prefix.
proof fn lemma_after_prefix(prefix: Seq<char>, after: Seq<char>)
    ensures
        without_prefix(prefix + after, prefix) == Some(after),
{
    assert((prefix + after).subrange(0, prefix.len() as int) =~= prefix);
    assert((prefix + after).skip(prefix.len() as int) =~= after);
}

/// Reading the import of a package set gives back what it is of: its arguments denote
/// the repository, the revision and the system that were asked for, and its
/// configuration allows whatever a package may be marked as.
pub proof fn lemma_import_reads_back(
    repo: Seq<char>,
    rev: Seq<char>,
    system: Seq<char>,
    after: Seq<char>,
)
    ensures
        read_import(import_text(repo, rev, system) + after) == Some((repo, rev, system, after)),
{
    let p1 = "import (builtins.fetchGit { url = "@;
    let p2 = "; rev = "@;
    let p3 = "; }) { system = "@;
    let p4 = "; config = "@;
    let p6 = "; }"@;
    let t5 = EVAL_CONFIG@ + (p6 + after);
    let t3 = p4 + t5;
    let t2 = p3 + (literal(system) + t3);
    let t1 = p2 + (literal(rev) + t2);
    let t = p1 + (literal(repo) + t1);
    assert(import_text(repo, rev, system) + after == t) by {
        lemma_regroup(
            p1,
            literal(repo),
            p2,
            literal(rev),
            p3,
            literal(system),
            p4,
            EVAL_CONFIG@,
            p6,
            after,
        );
    }
    lemma_after_prefix(p1, literal(repo) + t1);
    lemma_read_literal(repo, t1);
    lemma_after_prefix(p2, literal(rev) + t2);
    lemma_read_literal(rev, t2);
    lemma_after_prefix(p3, literal(system) + t3);
    lemma_read_literal(system, t3);
    lemma_after_prefix(p4, t5);
    lemma_after_prefix(EVAL_CONFIG@, p6 + after);
    lemma_after_prefix(p6, after);
}

/// Texts one after the other are the first, then the others.
proof fn lemma_regroup(
    a: Seq<char>,
    b: Seq<char>,
    c: Seq<char>,
    d: Seq<char>,
    e: Seq<char>,
    f: Seq<char>,
    g: Seq<char>,
    h: Seq<char>,
    i: Seq<char>,
    j: Seq<char>,
)
    ensures
        a + b + c + d + e + f + g + h + i + j == a + (b + (c + (d + (e + (f + (g + (h + (i
            + j)))))))),
{
    lemma_shift(a + b + c + d + e + f + g + h, i, j);
    lemma_shift(a + b + c + d + e + f + g, h, i + j);
    lemma_shift(a + b + c + d + e + f, g, h + (i + j));
    lemma_shift(a + b + c + d + e, f, g + (h + (i + j)));
    lemma_shift(a + b + c + d, e, f + (g + (h + (i + j))));
    lemma_shift(a + b + c, d, e + (f + (g + (h + (i + j)))));
    lemma_shift(a + b, c, d + (e + (f + (g + (h + (i + j))))));
    lemma_shift(a, b, c + (d + (e + (f + (g + (h + (i + j)))))));
}

/// It does not matter which of three texts are put together first.
proof fn lemma_shift(a: Seq<char>, b: Seq<char>, c: Seq<char>)
    ensures
        a + b + c == a + (b + c),
{
    assert(a + b + c =~= a + (b + c));
}

/// Two imports are equal only where they are of one repository, revision and system: no
/// argument is left out.
pub proof fn lemma_imports_differ(
    repo_a: Seq<char>,
    rev_a: Seq<char>,
    system_a: Seq<char>,
    repo_b: Seq<char>,
    rev_b: Seq<char>,
    system_b: Seq<char>,
)
    requires
        import_text(repo_a, rev_a, system_a) == import_text(repo_b, rev_b, system_b),
    ensures
        repo_a == repo_b,
        rev_a == rev_b,
        system_a == system_b,
{
    let none = Seq::<char>::empty();
    lemma_import_reads_back(repo_a, rev_a, system_a, none);
    lemma_import_reads_back(repo_b, rev_b, system_b, none);
}

/// Reading the expression for one shard gives back what it is of: the arguments of its
/// import, and the names that it is narrowed to.
pub proof fn lemma_shard_reads_back(
    repo: Seq<char>,
    rev: Seq<char>,
    system: Seq<char>,
    names: Seq<Seq<char>>,
)
    ensures
        ({
            let t = without_prefix(shard_text(repo, rev, system, names), "let pkgs = "@);
            &&& t is Some
            &&& read_import(t->0) matches Some((url, commit, host, rest)) && url == repo && commit
                == rev && host == system && {
                let list = without_prefix(
                    rest,
                    "; in builtins.listToAttrs (map (n: { name = n; value = pkgs.${n}; }) [ "@,
                );
                list is Some && read_literals(list->0) == (names, "])"@)
            }
        }),
{
    let p = "; in builtins.listToAttrs (map (n: { name = n; value = pkgs.${n}; }) [ "@;
    let list = literals(names) + "])"@;
    let t = import_text(repo, rev, system) + (p + list);
    assert(shard_text(repo, rev, system, names) =~= "let pkgs = "@ + t);
    lemma_after_prefix("let pkgs = "@, t);
    lemma_import_reads_back(repo, rev, system, p + list);
    lemma_after_prefix(p, list);
    reveal_strlit("])");
    lemma_read_literals(names, "])"@);
}

/// Reading a job expression gives back what it is of: the arguments of its import, and
/// the paths that it selects.
pub proof fn lemma_select_reads_back(
    repo: Seq<char>,
    rev: Seq<char>,
    system: Seq<char>,
    paths: Seq<Seq<char>>,
)
    ensures
        ({
            let t = without_prefix(select_text(repo, rev, system, paths), "let pkgs = "@);
            &&& t is Some
            &&& read_import(t->0) matches Some((url, commit, host, rest)) && url == repo && commit
                == rev && host == system && {
                let list = without_prefix(
                    rest,
                    "; lib = pkgs.lib; in builtins.listToAttrs (map (p: { name = p; value = lib.attrByPath (lib.splitString \".\" p) null pkgs; }) [ "@,
                );
                list is Some && read_literals(list->0) == (paths, "])"@)
            }
        }),
{
    let p =
        "; lib = pkgs.lib; in builtins.listToAttrs (map (p: { name = p; value = lib.attrByPath (lib.splitString \".\" p) null pkgs; }) [ "@;
    let list = literals(paths) + "])"@;
    let t = import_text(repo, rev, system) + (p + list);
    assert(select_text(repo, rev, system, paths) =~= "let pkgs = "@ + t);
    lemma_after_prefix("let pkgs = "@, t);
    lemma_import_reads_back(repo, rev, system, p + list);
    lemma_after_prefix(p, list);
    reveal_strlit("])");
    lemma_read_literals(paths, "])"@);
}

/// Reading the expression that exposes tests gives back what it is of: the arguments of
/// its import, and the packages, where the import does not itself hold the place for the
/// packages.
pub proof fn lemma_tests_read_back(
    repo: Seq<char>,
    rev: Seq<char>,
    system: Seq<char>,
    attrs: Seq<Seq<char>>,
)
    requires
        !holds(import_text(repo, rev, system), "@ATTRS@"@),
    ensures
        ({
            let t = without_prefix(tests_text(repo, rev, system, attrs), "\nlet\n  pkgs = "@);
            &&& t is Some
            &&& read_import(t->0) matches Some((url, commit, host, rest)) && url == repo && commit
                == rev && host == system && {
                let list = without_prefix(
                    rest,
                    ";\n  lib = pkgs.lib;\n  host = pkgs.stdenv.hostPlatform;\n  attrs = [ "@,
                );
                list is Some && read_literals(list->0).0 == attrs
            }
        }),
{
    let import = import_text(repo, rev, system);
    let list = literals(attrs);
    let pkgs = "@PKGS@"@;
    let place = "@ATTRS@"@;
    let after = TESTS_CLOSE@ + TESTS_BODY@;
    lemma_places();
    reveal_strlit("import (builtins.fetchGit { url = ");
    assert(import[0] == 'i');
    let rest = replaced(TESTS_BODY@, pkgs, import);
    let last = replaced(rest, place, list);
    // The first place is filled.
    lemma_replaced_lacking(TESTS_OPEN@, pkgs + (TESTS_MIDDLE@ + (place + after)), pkgs, import);
    lemma_replaced_at(pkgs, TESTS_MIDDLE@ + (place + after), import);
    lemma_replaced_lacking(TESTS_MIDDLE@, place + after, pkgs, import);
    lemma_replaced_after(place, after, pkgs, import);
    lemma_replaced_lacking(TESTS_CLOSE@, TESTS_BODY@, pkgs, import);
    let filled = TESTS_OPEN@ + (import + (TESTS_MIDDLE@ + (place + (TESTS_CLOSE@ + rest))));
    assert(replaced(tests_template(), pkgs, import) == filled);
    // Then the second one.
    let end = TESTS_CLOSE@ + rest;
    lemma_replaced_lacking(TESTS_OPEN@, import + (TESTS_MIDDLE@ + (place + end)), place, list);
    lemma_replaced_after(import, TESTS_MIDDLE@ + (place + end), place, list);
    lemma_replaced_lacking(TESTS_MIDDLE@, place + end, place, list);
    lemma_replaced_at(place, end, list);
    lemma_replaced_lacking(TESTS_CLOSE@, rest, place, list);
    let read = TESTS_MIDDLE@ + (list + (TESTS_CLOSE@ + last));
    assert(tests_text(repo, rev, system, attrs) == TESTS_OPEN@ + (import + read));
    lemma_after_prefix(TESTS_OPEN@, import + read);
    lemma_import_reads_back(repo, rev, system, read);
    lemma_after_prefix(TESTS_MIDDLE@, list + (TESTS_CLOSE@ + last));
    lemma_read_literals(attrs, TESTS_CLOSE@ + last);
}

/// What stands around the places of the expression that exposes tests holds none of them,
/// and the places differ.
proof fn lemma_places()
    ensures
        "@PKGS@"@.len() > 0 && "@PKGS@"@[0] == '@' && !"@PKGS@"@.contains(']'),
        "@ATTRS@"@.len() > 0 && "@ATTRS@"@[0] == '@' && !"@ATTRS@"@.contains(';'),
        !holds("@ATTRS@"@, "@PKGS@"@),
        !TESTS_OPEN@.contains('@'),
        !TESTS_MIDDLE@.contains('@'),
        TESTS_MIDDLE@.len() > 0 && TESTS_MIDDLE@[0] == ';',
        !TESTS_CLOSE@.contains('@'),
        TESTS_CLOSE@.len() > 0 && TESTS_CLOSE@[0] == ']',
        TESTS_OPEN@ == "\nlet\n  pkgs = "@,
        TESTS_MIDDLE@
            == ";\n  lib = pkgs.lib;\n  host = pkgs.stdenv.hostPlatform;\n  attrs = [ "@,
{
    reveal_strlit("@PKGS@");
    reveal_strlit("@ATTRS@");
    reveal_strlit("\nlet\n  pkgs = ");
    reveal_strlit(";\n  lib = pkgs.lib;\n  host = pkgs.stdenv.hostPlatform;\n  attrs = [ ");
    reveal_strlit("];\n");
    reveal_with_fuel(lacks, 80);
    lemma_lacks("@PKGS@"@, ']', 6);
    lemma_lacks("@ATTRS@"@, ';', 7);
    lemma_lacks(TESTS_OPEN@, '@', TESTS_OPEN@.len() as int);
    lemma_lacks(TESTS_MIDDLE@, '@', TESTS_MIDDLE@.len() as int);
    lemma_lacks(TESTS_CLOSE@, '@', TESTS_CLOSE@.len() as int);
    let place = "@ATTRS@"@;
    let pkgs = "@PKGS@"@;
    assert(!pkgs.is_prefix_of(place)) by {
        assert(place.subrange(0, 6)[1] != pkgs[1]);
    }
    assert(place.skip(1)[0] == 'A');
    assert(!pkgs.is_prefix_of(place.skip(1))) by {
        if pkgs.is_prefix_of(place.skip(1)) {
            assert(place.skip(1).subrange(0, 6)[0] == 'A');
        }
    }
    lemma_position_of(place.skip(1).skip(1), pkgs);
    assert(!holds(place.skip(1).skip(1), pkgs));
    assert(!holds(place.skip(1), pkgs));
}

} // verus!
