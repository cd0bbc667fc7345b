use vstd::prelude::*;
use vstd::utf8::encode_utf8;
use crate::content::{lemma_filter_next, views};
use crate::text::{
    lemma_text_less_irreflexive, lemma_text_less_total, lemma_text_less_transitive, same_text,
    text_less, text_lt,
};
use crate::usage::Usage;

verus! {

/// One row of the usage table, every cell as text.
#[derive(Clone, Debug)]
pub struct UsageRow {
    pub date: String,
    pub model: String,
    pub input_tokens: String,
    pub output_tokens: String,
    pub cache_creation_input_tokens: String,
    pub cache_read_input_tokens: String,
    pub total_tokens: String,
}

/// Date, model, four counters and their total.
pub const COLUMN_COUNT: usize = 7;

impl UsageRow {
    /// The number of columns of the table.
    pub fn column_count() -> (r: usize)
        ensures
            r == COLUMN_COUNT,
    {
        COLUMN_COUNT
    }
}

/// Whether a character has one of Unicode's number categories, as
/// `char::is_numeric` tells.
pub uninterp spec fn numeric_char(c: char) -> bool;

/// Relies on `char::is_numeric`.
#[verifier::external_body]
fn is_numeric_char(c: char) -> (r: bool)
    ensures
        r == numeric_char(c),
{
    c.is_numeric()
}

/// Every character is numeric (so the empty text is).
pub open spec fn all_numeric(s: Seq<char>) -> bool {
    forall|i: int| 0 <= i < s.len() ==> numeric_char(#[trigger] s[i])
}

/// The first position at or after `from` that holds a dash, or the length.
pub open spec fn dash_index(s: Seq<char>, from: int) -> int
    decreases s.len() - from,
{
    if from >= s.len() || from < 0 {
        s.len() as int
    } else if s[from] == '-' {
        from
    } else {
        dash_index(s, from + 1)
    }
}

proof fn lemma_dash_index_bounds(s: Seq<char>, from: int)
    requires
        0 <= from <= s.len(),
    ensures
        from <= dash_index(s, from) <= s.len(),
    decreases s.len() - from,
{
    if from < s.len() && s[from] != '-' {
        lemma_dash_index_bounds(s, from + 1);
    }
}

/// The pieces of `s` from `from` on between dashes, as `str::split('-')`
/// gives them: always at least one, empty pieces kept.
pub open spec fn pieces_from(s: Seq<char>, from: int) -> Seq<Seq<char>>
    decreases s.len() - from via pieces_from_decreases
{
    if from > s.len() || from < 0 {
        Seq::empty()
    } else {
        let end = dash_index(s, from);
        if end < s.len() {
            seq![s.subrange(from, end)] + pieces_from(s, end + 1)
        } else {
            seq![s.subrange(from, s.len() as int)]
        }
    }
}

#[via_fn]
proof fn pieces_from_decreases(s: Seq<char>, from: int) {
    if 0 <= from <= s.len() {
        lemma_dash_index_bounds(s, from);
    }
}

pub open spec fn dash_pieces(s: Seq<char>) -> Seq<Seq<char>> {
    pieces_from(s, 0)
}

/// Relies on `str::split` with the pattern `'-'`.
#[verifier::external_body]
fn split_dashes(s: &str) -> (r: Vec<String>)
    ensures
        r@.len() == dash_pieces(s@).len(),
        forall|i: int| 0 <= i < r@.len() ==> #[trigger] r@[i]@ == dash_pieces(s@)[i],
{
    s.split('-').map(|piece| piece.to_string()).collect()
}

/// Pieces joined with a dash between each two.
pub open spec fn join_dash(parts: Seq<Seq<char>>) -> Seq<char>
    decreases parts.len(),
{
    if parts.len() == 0 {
        Seq::empty()
    } else if parts.len() == 1 {
        parts[0]
    } else {
        join_dash(parts.drop_last()) + seq!['-'] + parts.last()
    }
}

/// The name without the vendor's prefix, where it starts with it.
pub open spec fn without_vendor(model: Seq<char>, prefix: Seq<char>) -> Seq<char> {
    if model.len() >= prefix.len() && model.subrange(0, prefix.len() as int) == prefix {
        model.subrange(prefix.len() as int, model.len() as int)
    } else {
        model
    }
}

/// The short form of a model name. Without the vendor's prefix, a name of
/// three or more dash-separated pieces whose last piece is a date (eight
/// bytes, all numeric) loses that date; of two remaining pieces, a numeric
/// version goes after the name (`3-opus` becomes `opus3`, `sonnet-4`
/// becomes `sonnet4`), else the pieces keep their dashes. Any other name is
/// left as it is, prefix removed.
pub open spec fn simplified(model: Seq<char>, prefix: Seq<char>) -> Seq<char> {
    let w = without_vendor(model, prefix);
    let parts = dash_pieces(w);
    if parts.len() >= 3 && encode_utf8(parts.last()).len() == 8 && all_numeric(parts.last()) {
        let head = parts.drop_last();
        dated_short_form(head, all_numeric(head[0]), all_numeric(head[1]))
    } else {
        w
    }
}

/// The short form of the pieces left once the date is gone: of two pieces,
/// the version (the numeric one) goes after the name; else the pieces keep
/// their dashes.
pub open spec fn dated_short_form(
    head: Seq<Seq<char>>,
    first_is_version: bool,
    second_is_version: bool,
) -> Seq<char> {
    if head.len() == 2 && first_is_version {
        head[1] + head[0]
    } else if head.len() == 2 && second_is_version {
        head[0] + head[1]
    } else {
        join_dash(head)
    }
}

fn is_all_numeric(s: &str) -> (r: bool)
    ensures
        r == all_numeric(s@),
{
    let n = s.unicode_len();
    let mut i: usize = 0;
    while i < n
        invariant
            n == s@.len(),
            i <= n,
            forall|j: int| 0 <= j < i ==> numeric_char(#[trigger] s@[j]),
        decreases n - i,
    {
        if !is_numeric_char(s.get_char(i)) {
            return false;
        }
        i = i + 1;
    }
    true
}

/// The table's presentation; it holds no state.
pub struct TableRenderer;

impl TableRenderer {
    pub fn new() -> (r: TableRenderer)
        ensures
            r == TableRenderer,
    {
        TableRenderer
    }

    /// The short form of a model name, given the vendor's prefix (such as
    /// `vendor-`) that names carry (see `simplified`).
    pub fn simplify_model_name(model: &str, vendor_prefix: &str) -> (r: String)
        ensures
            r@ == simplified(model@, vendor_prefix@),
    {
        let n = model.unicode_len();
        let k = vendor_prefix.unicode_len();
        let w: &str = if n >= k && same_text(model.substring_char(0, k), vendor_prefix) {
            model.substring_char(k, n)
        } else {
            model
        };
        assert(w@ == without_vendor(model@, vendor_prefix@));
        let parts = split_dashes(w);
        let ghost ps = dash_pieces(w@);
        let count = parts.len();
        if count < 3 {
            return w.to_owned();
        }
        assert(parts@[count - 1]@ == ps.last());
        let last: &str = parts[count - 1].as_str();
        let last_bytes: usize = last.as_bytes().len();
        assert(last_bytes == encode_utf8(last@).len());
        if last_bytes != 8 || !is_all_numeric(last) {
            return w.to_owned();
        }
        let mut head = parts;
        head.pop();
        assert(views(head@) =~= ps.drop_last());
        let two = count == 3;
        let first_is_version = two && is_all_numeric(head[0].as_str());
        let second_is_version = two && !first_is_version && is_all_numeric(head[1].as_str());
        assert(views(head@)[0] == head@[0]@);
        assert(views(head@)[1] == head@[1]@);
        TableRenderer::shorten_dated(&head, first_is_version, second_is_version)
    }

    /// The short form of a dated model name's pieces without the date, given
    /// whether the first and the second piece are numeric versions (see
    /// `dated_short_form`).
    pub fn shorten_dated(head: &Vec<String>, first_is_version: bool, second_is_version: bool) -> (r:
        String)
        ensures
            r@ == dated_short_form(views(head@), first_is_version, second_is_version),
    {
        let count = head.len();
        let ghost hs = views(head@);
        if count == 0 {
            let r = String::new();
            assert(r@ =~= join_dash(hs));
            return r;
        }
        assert(hs[0] == head@[0]@);
        if count == 2 {
            assert(hs[1] == head@[1]@);
            if first_is_version {
                return head[1].clone().concat(head[0].as_str());
            } else if second_is_version {
                return head[0].clone().concat(head[1].as_str());
            }
        }
        let mut out = head[0].clone();
        let mut i: usize = 1;
        assert(hs.subrange(0, 1).drop_last() =~= Seq::<Seq<char>>::empty());
        while i < count
            invariant
                count == head@.len(),
                hs == views(head@),
                1 <= i <= count,
                out@ == join_dash(hs.subrange(0, i as int)),
            decreases count - i,
        {
            assert(hs.subrange(0, i as int + 1).drop_last() =~= hs.subrange(0, i as int));
            assert(hs[i as int] == head@[i as int]@);
            out.append("-");
            out.append(head[i].as_str());
            proof {
                reveal_strlit("-");
                assert(out@ =~= join_dash(hs.subrange(0, i as int)) + seq!['-'] + hs[i as int]);
            }
            i = i + 1;
        }
        assert(hs.subrange(0, count as int) =~= hs);
        out
    }
}

/// Width of one cell of a table that takes 80% of a terminal of
/// `term_width` columns, at most 200, shared by `columns` columns.
pub fn cell_width(term_width: usize, columns: usize) -> (r: usize)
    requires
        columns > 0,
    ensures
        r == (if term_width * 8 / 10 < 200 {
            term_width * 8 / 10
        } else {
            200
        }) / columns as int,
{
    let scaled: usize = term_width / 10 * 8 + term_width % 10 * 8 / 10;
    let w: usize = if scaled < 200 {
        scaled
    } else {
        200
    };
    w / columns
}

/// The models of one date and their counters, in the order of the input.
#[derive(Clone, Debug)]
pub struct DateGroup {
    pub date: String,
    pub models: Vec<(String, Usage)>,
}

pub open spec fn shown(e: ((String, String), Usage), date: Seq<char>) -> bool {
    e.0.1@ == date && !e.1.all_zero_spec()
}

pub open spec fn model_view(e: ((String, String), Usage)) -> (Seq<char>, Usage) {
    (e.0.0@, e.1)
}

/// The (model, counter) pairs shown under a date: the entries of that date
/// whose counters are not all zero, in order.
pub open spec fn rows_of_date(data: Seq<((String, String), Usage)>, date: Seq<char>) -> Seq<
    (Seq<char>, Usage),
> {
    data.filter(|e: ((String, String), Usage)| shown(e, date)).map_values(
        |e: ((String, String), Usage)| model_view(e),
    )
}

pub open spec fn pair_view(p: (String, Usage)) -> (Seq<char>, Usage) {
    (p.0@, p.1)
}

/// Groups for display: one per date that has an entry whose counters are not
/// all zero, in increasing order of date, each with the rows of that date.
pub open spec fn groups_of(data: Seq<((String, String), Usage)>, r: Seq<DateGroup>) -> bool {
    &&& forall|i: int, j: int| 0 <= i < j < r.len() ==> text_less(#[trigger] r[i].date@, #[trigger] r[j].date@)
    &&& forall|g: int|
        0 <= g < r.len() ==> (#[trigger] r[g]).models@.map_values(|p: (String, Usage)| pair_view(p))
            == rows_of_date(data, r[g].date@) && r[g].models@.len() > 0
    &&& forall|i: int|
        0 <= i < data.len() && !data[i].1.all_zero_spec() ==> exists|g: int|
            0 <= g < r.len() && (#[trigger] r[g]).date@ == (#[trigger] data[i]).0.1@
}

/// The rows of one date, given that some entry has that date and shows.
fn rows_for_date(data: &Vec<((String, String), Usage)>, date: &String) -> (r: Vec<(String, Usage)>)
    ensures
        r@.map_values(|p: (String, Usage)| pair_view(p)) == rows_of_date(data@, date@),
        (exists|i: int| 0 <= i < data@.len() && shown(#[trigger] data@[i], date@)) ==> r@.len() > 0,
{
    let ghost pred = |e: ((String, String), Usage)| shown(e, date@);
    let ghost mv = |e: ((String, String), Usage)| model_view(e);
    let ghost pv = |p: (String, Usage)| pair_view(p);
    let mut out: Vec<(String, Usage)> = Vec::new();
    let mut i: usize = 0;
    while i < data.len()
        invariant
            i <= data.len(),
            out@.map_values(pv) == data@.subrange(0, i as int).filter(pred).map_values(mv),
            pred == (|e: ((String, String), Usage)| shown(e, date@)),
            mv == (|e: ((String, String), Usage)| model_view(e)),
            pv == (|p: (String, Usage)| pair_view(p)),
            (exists|j: int| 0 <= j < i && shown(#[trigger] data@[j], date@)) ==> out@.len() > 0,
        decreases data.len() - i,
    {
        proof {
            lemma_filter_next(data@, pred, i as int);
        }
        let ghost before = out@;
        if same_text(data[i].0.1.as_str(), date.as_str()) && !data[i].1.is_all_zero() {
            out.push((data[i].0.0.clone(), data[i].1));
            assert(out@.map_values(pv) =~= before.map_values(pv).push(mv(data@[i as int])));
            assert(data@.subrange(0, i as int + 1).filter(pred).map_values(mv) =~= data@.subrange(
                0,
                i as int,
            ).filter(pred).map_values(mv).push(mv(data@[i as int])));
        } else {
            assert(!shown(data@[i as int], date@));
        }
        i = i + 1;
    }
    assert(data@.subrange(0, data.len() as int) =~= data@);
    out
}

/// The entries grouped for display (see `groups_of`).
pub fn group_by_date(data: &Vec<((String, String), Usage)>) -> (r: Vec<DateGroup>)
    ensures
        groups_of(data@, r@),
{
    let mut dates: Vec<String> = Vec::new();
    let mut witness: Vec<usize> = Vec::new();
    let mut i: usize = 0;
    while i < data.len()
        invariant
            i <= data.len(),
            witness@.len() == dates@.len(),
            forall|a: int, b: int| 0 <= a < b < dates@.len() ==> text_less(#[trigger] dates@[a]@, #[trigger] dates@[b]@),
            forall|q: int| 0 <= q < dates@.len() ==> #[trigger] witness@[q] < data@.len(),
            forall|q: int|
                #![trigger dates@[q]]
                0 <= q < dates@.len() ==> shown(data@[witness@[q] as int], dates@[q]@),
            forall|j: int|
                0 <= j < i && !data@[j].1.all_zero_spec() ==> exists|q: int|
                    0 <= q < dates@.len() && (#[trigger] dates@[q])@ == (#[trigger] data@[j]).0.1@,
        decreases data.len() - i,
    {
        if !data[i].1.is_all_zero() {
            let d = &data[i].0.1;
            let mut p: usize = 0;
            while p < dates.len() && text_lt(dates[p].as_str(), d.as_str())
                invariant
                    p <= dates.len(),
                    forall|q: int| 0 <= q < p ==> text_less(#[trigger] dates@[q]@, d@),
                decreases dates.len() - p,
            {
                p = p + 1;
            }
            if p < dates.len() && same_text(dates[p].as_str(), d.as_str()) {
                assert(dates@[p as int]@ == data@[i as int].0.1@);
            } else {
                let ghost before = dates@;
                let ghost wbefore = witness@;
                proof {
                    assert forall|q: int| p <= q < before.len() implies text_less(d@, #[trigger] before[q]@) by {
                        lemma_text_less_total(before[p as int]@, d@);
                        if q > p {
                            lemma_text_less_transitive(d@, before[p as int]@, before[q]@);
                        }
                    }
                    before.insert_ensures(p as int, *d);
                }
                dates.insert(p, d.clone());
                witness.insert(p, i);
                proof {
                    let after = dates@;
                    wbefore.insert_ensures(p as int, i);
                    let wafter = witness@;
                    assert forall|q: int| 0 <= q < wafter.len() implies #[trigger] wafter[q] == (if q < p {
                        wbefore[q]
                    } else if q == p {
                        i
                    } else {
                        wbefore[q - 1]
                    }) by {
                        if q > p {
                            assert(wbefore.insert(p as int, i)[(q - 1) + 1] == wbefore[q - 1]);
                        }
                    }
                    assert forall|q: int| 0 <= q < after.len() implies #[trigger] after[q] == (if q < p {
                        before[q]
                    } else if q == p {
                        *d
                    } else {
                        before[q - 1]
                    }) by {
                        if q > p {
                            assert(before.insert(p as int, *d)[(q - 1) + 1] == before[q - 1]);
                        }
                    }
                    assert forall|a: int, b: int| 0 <= a < b < after.len() implies text_less(
                        #[trigger] after[a]@,
                        #[trigger] after[b]@,
                    ) by {
                        if a < p && b > p {
                            lemma_text_less_transitive(before[a]@, d@, before[b - 1]@);
                        }
                    }
                    assert forall|q: int| 0 <= q < after.len() implies wafter[q] < data@.len() && shown(
                        data@[wafter[q] as int],
                        (#[trigger] after[q])@,
                    ) by {
                        if q == p {
                            assert(shown(data@[i as int], after[q]@));
                        } else if q < p {
                            assert(after[q] == before[q]);
                        } else {
                            assert(after[q] == before[q - 1]);
                        }
                    }
                    assert forall|j: int| 0 <= j < i && !data@[j].1.all_zero_spec() implies exists|q: int|
                        0 <= q < after.len() && (#[trigger] after[q])@ == (#[trigger] data@[j]).0.1@ by {
                        let q = choose|q: int| 0 <= q < before.len() && (#[trigger] before[q])@ == data@[j].0.1@;
                        if q < p {
                            assert(after[q] == before[q]);
                        } else {
                            assert(after[q + 1] == before[q]);
                        }
                    }
                    assert(after[p as int]@ == data@[i as int].0.1@);
                }
            }
        }
        i = i + 1;
    }
    let mut groups: Vec<DateGroup> = Vec::new();
    let mut g: usize = 0;
    while g < dates.len()
        invariant
            g <= dates.len(),
            groups@.len() == g,
            forall|q: int| 0 <= q < g ==> (#[trigger] groups@[q]).date@ == dates@[q]@,
            forall|q: int|
                0 <= q < g ==> (#[trigger] groups@[q]).models@.map_values(|p: (String, Usage)| pair_view(p))
                    == rows_of_date(data@, groups@[q].date@) && groups@[q].models@.len() > 0,
            witness@.len() == dates@.len(),
            forall|q: int| 0 <= q < dates@.len() ==> #[trigger] witness@[q] < data@.len(),
            forall|q: int|
                #![trigger dates@[q]]
                0 <= q < dates@.len() ==> shown(data@[witness@[q] as int], dates@[q]@),
        decreases dates.len() - g,
    {
        let date = dates[g].clone();
        assert(shown(data@[witness@[g as int] as int], date@));
        let models = rows_for_date(data, &date);
        groups.push(DateGroup { date, models });
        g = g + 1;
    }
    proof {
        assert forall|a: int, b: int| 0 <= a < b < groups@.len() implies text_less(
            #[trigger] groups@[a].date@,
            #[trigger] groups@[b].date@,
        ) by {
            assert(groups@[a].date@ == dates@[a]@);
            assert(groups@[b].date@ == dates@[b]@);
        }
        assert forall|j: int| 0 <= j < data@.len() && !data@[j].1.all_zero_spec() implies exists|q: int|
            0 <= q < groups@.len() && (#[trigger] groups@[q]).date@ == (#[trigger] data@[j]).0.1@ by {
            let q = choose|q: int| 0 <= q < dates@.len() && (#[trigger] dates@[q])@ == data@[j].0.1@;
            assert(groups@[q].date@ == dates@[q]@);
        }
    }
    groups
}

} // verus!
