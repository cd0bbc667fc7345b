use vstd::prelude::*;
use crate::text::{is_blank, is_blank_line, lines_of, same_text, split_lines};

verus! {

/// Whether serde_json reads the text as one JSON value.
pub uninterp spec fn parses_as_json(text: Seq<char>) -> bool;

/// Relies on `serde_json::from_str::<serde_json::Value>`: whether it returns
/// `Ok` on the text.
#[verifier::external_body]
fn is_json_text(text: &str) -> (r: bool)
    ensures
        r == parses_as_json(text@),
{
    serde_json::from_str::<serde_json::Value>(text).is_ok()
}

pub open spec fn views(v: Seq<String>) -> Seq<Seq<char>> {
    v.map_values(|s: String| s@)
}

pub open spec fn not_blank(line: Seq<char>) -> bool {
    !is_blank(line)
}

/// The lines of the content that hold more than white space, in order.
pub open spec fn nonblank_lines(content: Seq<char>) -> Seq<Seq<char>> {
    lines_of(content).filter(|line: Seq<char>| not_blank(line))
}

/// The lines whose flag is set, in order.
pub open spec fn flagged(lines: Seq<Seq<char>>, flags: Seq<bool>) -> Seq<Seq<char>>
    decreases lines.len(),
{
    if lines.len() == 0 {
        Seq::empty()
    } else {
        let rest = flagged(lines.drop_last(), flags);
        if flags[lines.len() - 1] {
            rest.push(lines.last())
        } else {
            rest
        }
    }
}

/// The texts of a file's content that are decoded as records. Where the first
/// non-blank line is JSON by itself, the content is JSON Lines: every
/// non-blank line that is JSON, in order. Else the whole content, where it is
/// one JSON document. Else nothing.
pub open spec fn json_frames_spec(content: Seq<char>) -> Seq<Seq<char>> {
    let lines = nonblank_lines(content);
    if lines.len() == 0 {
        Seq::empty()
    } else if parses_as_json(lines[0]) {
        lines.filter(|line: Seq<char>| parses_as_json(line))
    } else if parses_as_json(content) {
        seq![content]
    } else {
        Seq::empty()
    }
}

/// One more element of a prefix passes through `filter` iff it satisfies the
/// predicate.
pub proof fn lemma_filter_next<A>(s: Seq<A>, p: spec_fn(A) -> bool, i: int)
    requires
        0 <= i < s.len(),
    ensures
        s.subrange(0, i + 1).filter(p) == if p(s[i]) {
            s.subrange(0, i).filter(p).push(s[i])
        } else {
            s.subrange(0, i).filter(p)
        },
{
    reveal(Seq::filter);
    assert(s.subrange(0, i + 1).drop_last() =~= s.subrange(0, i));
}

proof fn lemma_flagged_filter(lines: Seq<Seq<char>>, flags: Seq<bool>, p: spec_fn(Seq<char>) -> bool)
    requires
        flags.len() == lines.len(),
        forall|i: int| 0 <= i < lines.len() ==> flags[i] == p(#[trigger] lines[i]),
    ensures
        flagged(lines, flags) == lines.filter(p),
    decreases lines.len(),
{
    reveal(Seq::filter);
    if lines.len() > 0 {
        let init = lines.drop_last();
        assert forall|i: int| 0 <= i < init.len() implies flags[i] == p(#[trigger] init[i]) by {
            assert(init[i] == lines[i]);
        }
        lemma_flagged_prefix(init, flags, flags.subrange(0, init.len() as int));
        lemma_flagged_filter(init, flags.subrange(0, init.len() as int), p);
    }
}

proof fn lemma_flagged_prefix(lines: Seq<Seq<char>>, flags: Seq<bool>, prefix: Seq<bool>)
    requires
        lines.len() <= prefix.len() <= flags.len(),
        forall|i: int| 0 <= i < prefix.len() ==> flags[i] == prefix[i],
    ensures
        flagged(lines, flags) == flagged(lines, prefix),
    decreases lines.len(),
{
    if lines.len() > 0 {
        lemma_flagged_prefix(lines.drop_last(), flags, prefix);
    }
}

/// The lines whose flag is set, in order: how a file in JSON Lines form is
/// read, given for each non-blank line whether it is JSON.
pub fn select_flagged(lines: &Vec<String>, flags: &Vec<bool>) -> (r: Vec<String>)
    requires
        lines.len() == flags.len(),
    ensures
        views(r@) == flagged(views(lines@), flags@),
{
    let mut out: Vec<String> = Vec::new();
    let mut i: usize = 0;
    while i < lines.len()
        invariant
            lines.len() == flags.len(),
            i <= lines.len(),
            views(out@) == flagged(views(lines@).subrange(0, i as int), flags@),
        decreases lines.len() - i,
    {
        let ghost before = out@;
        let ghost ls = views(lines@).subrange(0, i as int + 1);
        assert(ls.drop_last() =~= views(lines@).subrange(0, i as int));
        if flags[i] {
            out.push(lines[i].clone());
            assert(views(out@) =~= views(before).push(lines@[i as int]@));
        }
        i = i + 1;
    }
    assert(views(lines@).subrange(0, lines.len() as int) =~= views(lines@));
    out
}

/// The texts of a file's content that are decoded as records (see
/// `json_frames_spec`); malformed lines and documents give none.
pub fn json_frames(content: &str) -> (r: Vec<String>)
    ensures
        views(r@) == json_frames_spec(content@),
{
    let all = split_lines(content);
    let ghost all_lines = lines_of(content@);
    assert(views(all@) =~= all_lines);
    let mut lines: Vec<String> = Vec::new();
    let mut i: usize = 0;
    while i < all.len()
        invariant
            i <= all.len(),
            views(all@) == all_lines,
            views(lines@) == all_lines.subrange(0, i as int).filter(
                |line: Seq<char>| not_blank(line),
            ),
        decreases all.len() - i,
    {
        proof {
            lemma_filter_next(all_lines, |line: Seq<char>| not_blank(line), i as int);
        }
        let ghost before = lines@;
        if !is_blank_line(all[i].as_str()) {
            lines.push(all[i].clone());
            assert(views(lines@) =~= views(before).push(all_lines[i as int]));
        }
        i = i + 1;
    }
    assert(all_lines.subrange(0, all.len() as int) =~= all_lines);
    if lines.len() == 0 {
        let r: Vec<String> = Vec::new();
        assert(views(r@) =~= Seq::<Seq<char>>::empty());
        return r;
    }
    assert(views(lines@)[0] == lines@[0]@);
    if is_json_text(lines[0].as_str()) {
        let mut flags: Vec<bool> = Vec::new();
        let mut j: usize = 0;
        while j < lines.len()
            invariant
                j <= lines.len(),
                flags.len() == j,
                forall|k: int| 0 <= k < j ==> flags@[k] == parses_as_json(#[trigger] lines@[k]@),
            decreases lines.len() - j,
        {
            flags.push(is_json_text(lines[j].as_str()));
            j = j + 1;
        }
        let r = select_flagged(&lines, &flags);
        proof {
            lemma_flagged_filter(views(lines@), flags@, |line: Seq<char>| parses_as_json(line));
        }
        r
    } else if is_json_text(content) {
        let mut r: Vec<String> = Vec::new();
        r.push(content.to_owned());
        assert(views(r@) =~= seq![content@]);
        r
    } else {
        let r: Vec<String> = Vec::new();
        assert(views(r@) =~= Seq::<Seq<char>>::empty());
        r
    }
}

/// Whether a file with this extension is read: `json` and `jsonl` are.
pub fn is_log_extension(extension: &str) -> (r: bool)
    ensures
        r == (extension@ == "json"@ || extension@ == "jsonl"@),
{
    same_text(extension, "json") || same_text(extension, "jsonl")
}

} // verus!
