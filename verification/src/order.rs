//! Ordered lists of rows, where a row is a list of texts. Rows compare text by
//! text, a row that is a proper prefix of another coming first.
use crate::text;
use crate::views;
use vstd::prelude::*;

verus! {

broadcast use {views::texts_push, views::pieces_push};

/// A row of texts.
pub type Row = Seq<Seq<char>>;

/// The rows held by a list of string lists.
pub open spec fn rows(v: Seq<Vec<String>>) -> Seq<Row> {
    v.map_values(|r: Vec<String>| views::texts(r@))
}

/// The order of rows.
pub open spec fn row_le(a: Row, b: Row) -> bool
    decreases a.len(),
{
    if a.len() == 0 {
        true
    } else if b.len() == 0 {
        false
    } else if a[0] != b[0] {
        text::text_le(a[0], b[0])
    } else {
        row_le(a.drop_first(), b.drop_first())
    }
}

/// Each row precedes or equals those behind it.
pub open spec fn ascending(rs: Seq<Row>) -> bool {
    forall|i: int, j: int| 0 <= i < j < rs.len() ==> row_le(#[trigger] rs[i], #[trigger] rs[j])
}

/// No row stands twice.
pub open spec fn distinct(rs: Seq<Row>) -> bool {
    forall|i: int, j: int| 0 <= i < j < rs.len() ==> #[trigger] rs[i] != #[trigger] rs[j]
}

/// Where a row belongs: behind the last row that precedes or equals it.
pub open spec fn place(rs: Seq<Row>, r: Row) -> int
    decreases rs.len(),
{
    if rs.len() == 0 || row_le(rs.last(), r) {
        rs.len() as int
    } else {
        place(rs.drop_last(), r)
    }
}

/// The list with a row more, at its place.
pub open spec fn put(rs: Seq<Row>, r: Row) -> Seq<Row> {
    rs.insert(place(rs, r), r)
}

/// The list with a row more, unless it is there.
pub open spec fn put_new(rs: Seq<Row>, r: Row) -> Seq<Row> {
    if rs.contains(r) {
        rs
    } else {
        put(rs, r)
    }
}

/// The rows put in order one after the other.
pub open spec fn sorted(rs: Seq<Row>) -> Seq<Row>
    decreases rs.len(),
{
    if rs.len() == 0 {
        Seq::empty()
    } else {
        put(sorted(rs.drop_last()), rs.last())
    }
}

/// The rows put in order one after the other, each once.
pub open spec fn sorted_set(rs: Seq<Row>) -> Seq<Row>
    decreases rs.len(),
{
    if rs.len() == 0 {
        Seq::empty()
    } else {
        put_new(sorted_set(rs.drop_last()), rs.last())
    }
}

/// The order of rows is total.
pub proof fn row_le_total(a: Row, b: Row)
    ensures
        row_le(a, b) || row_le(b, a),
    decreases a.len(),
{
    if a.len() > 0 && b.len() > 0 {
        if a[0] == b[0] {
            row_le_total(a.drop_first(), b.drop_first());
        } else {
            text::text_le_total(a[0], b[0]);
        }
    }
}

/// The order of rows is transitive.
pub proof fn row_le_transitive(a: Row, b: Row, c: Row)
    requires
        row_le(a, b),
        row_le(b, c),
    ensures
        row_le(a, c),
    decreases a.len(),
{
    if a.len() > 0 && b.len() > 0 && c.len() > 0 {
        if a[0] == b[0] && b[0] == c[0] {
            row_le_transitive(a.drop_first(), b.drop_first(), c.drop_first());
        } else if a[0] != b[0] && b[0] != c[0] {
            text::text_le_transitive(a[0], b[0], c[0]);
            if a[0] == c[0] {
                text::text_le_antisymmetric(a[0], b[0]);
            }
        }
    }
}

/// Rows that precede each other are equal.
pub proof fn row_le_antisymmetric(a: Row, b: Row)
    requires
        row_le(a, b),
        row_le(b, a),
    ensures
        a == b,
    decreases a.len(),
{
    if a.len() > 0 && b.len() > 0 {
        if a[0] == b[0] {
            row_le_antisymmetric(a.drop_first(), b.drop_first());
            assert(a =~= seq![a[0]] + a.drop_first());
            assert(b =~= seq![b[0]] + b.drop_first());
        } else {
            text::text_le_antisymmetric(a[0], b[0]);
        }
    } else {
        assert(a =~= b);
    }
}

/// A place parts an ascending list into what precedes the row and what follows it.
pub proof fn place_parts(rs: Seq<Row>, r: Row)
    requires
        ascending(rs),
    ensures
        0 <= place(rs, r) <= rs.len(),
        forall|i: int| 0 <= i < place(rs, r) ==> row_le(#[trigger] rs[i], r),
        forall|i: int| place(rs, r) <= i < rs.len() ==> row_le(r, #[trigger] rs[i]),
    decreases rs.len(),
{
    if rs.len() == 0 {
    } else if row_le(rs.last(), r) {
        assert forall|i: int| 0 <= i < rs.len() implies row_le(#[trigger] rs[i], r) by {
            if i < rs.len() - 1 {
                row_le_transitive(rs[i], rs[rs.len() - 1], r);
            }
        }
    } else {
        let front = rs.drop_last();
        assert forall|i: int, j: int| 0 <= i < j < front.len() implies row_le(
            #[trigger] front[i],
            #[trigger] front[j],
        ) by {
            assert(front[i] == rs[i] && front[j] == rs[j]);
        }
        place_parts(front, r);
        assert forall|i: int| 0 <= i < place(rs, r) implies row_le(#[trigger] rs[i], r) by {
            assert(rs[i] == front[i]);
        }
        assert forall|i: int| place(rs, r) <= i < rs.len() implies row_le(r, #[trigger] rs[i]) by {
            if i < front.len() {
                assert(rs[i] == front[i]);
            } else {
                row_le_total(r, rs.last());
            }
        }
    }
}

/// A row put at its place leaves the list ascending.
pub proof fn put_ascending(rs: Seq<Row>, r: Row)
    requires
        ascending(rs),
    ensures
        ascending(put(rs, r)),
        put(rs, r).to_multiset() == rs.to_multiset().insert(r),
        put(rs, r).len() == rs.len() + 1,
        forall|x: Row| #[trigger] put(rs, r).contains(x) <==> rs.contains(x) || x == r,
{
    broadcast use vstd::seq_lib::group_to_multiset_ensures;

    place_parts(rs, r);
    let p = place(rs, r);
    let out = put(rs, r);
    out.to_multiset_ensures();
    assert(out.remove(p) =~= rs);
    assert(out[p] == r && out.contains(r));
    assert(out.to_multiset() =~= rs.to_multiset().insert(r));
    assert forall|i: int, j: int| 0 <= i < j < out.len() implies row_le(
        #[trigger] out[i],
        #[trigger] out[j],
    ) by {
        let a = if i < p { rs[i] } else if i == p { r } else { rs[i - 1] };
        let b = if j < p { rs[j] } else if j == p { r } else { rs[j - 1] };
        assert(out[i] == a && out[j] == b);
    }
    assert forall|x: Row| #[trigger] out.contains(x) <==> rs.contains(x) || x == r by {
        if out.contains(x) {
            let i = choose|i: int| 0 <= i < out.len() && out[i] == x;
            if i < p {
                assert(rs[i] == x);
            } else if i > p {
                assert(rs[i - 1] == x);
            }
        }
        if rs.contains(x) {
            let i = choose|i: int| 0 <= i < rs.len() && rs[i] == x;
            if i < p {
                assert(out[i] == x);
            } else {
                assert(out[i + 1] == x);
            }
        }
        assert(out[p] == r);
    }
}

/// Sorting keeps every row as often as it stands and puts them in order.
pub proof fn sorted_is_ordered(rs: Seq<Row>)
    ensures
        ascending(sorted(rs)),
        sorted(rs).to_multiset() == rs.to_multiset(),
        sorted(rs).len() == rs.len(),
    decreases rs.len(),
{
    broadcast use vstd::seq_lib::group_to_multiset_ensures;

    if rs.len() > 0 {
        sorted_is_ordered(rs.drop_last());
        put_ascending(sorted(rs.drop_last()), rs.last());
        assert(rs.drop_last().push(rs.last()) =~= rs);
    } else {
        assert(rs =~= Seq::<Row>::empty());
    }
}

/// Sorting as a set keeps every row once and puts them in order.
pub proof fn sorted_set_is_ordered(rs: Seq<Row>)
    ensures
        ascending(sorted_set(rs)),
        distinct(sorted_set(rs)),
        forall|x: Row| #[trigger] sorted_set(rs).contains(x) <==> rs.contains(x),
    decreases rs.len(),
{
    if rs.len() > 0 {
        let front = rs.drop_last();
        let r = rs.last();
        let before = sorted_set(front);
        sorted_set_is_ordered(front);
        put_ascending(before, r);
        place_parts(before, r);
        let out = sorted_set(rs);
        let p = place(before, r);
        assert forall|i: int, j: int| 0 <= i < j < out.len() implies #[trigger] out[i]
            != #[trigger] out[j] by {
            if !before.contains(r) {
                let a = if i < p { before[i] } else if i == p { r } else { before[i - 1] };
                let b = if j < p { before[j] } else if j == p { r } else { before[j - 1] };
                assert(out[i] == a && out[j] == b);
            }
        }
        assert forall|x: Row| #[trigger] out.contains(x) <==> rs.contains(x) by {
            if rs.contains(x) {
                let i = choose|i: int| 0 <= i < rs.len() && rs[i] == x;
                if i < front.len() {
                    assert(front[i] == x);
                }
            }
            if front.contains(x) {
                let i = choose|i: int| 0 <= i < front.len() && front[i] == x;
                assert(rs[i] == x);
            }
            assert(rs[rs.len() - 1] == r);
        }
    }
}

/// An ascending list without repetitions is fixed by what it holds: what was
/// put in, and in which order, leaves no trace.
pub proof fn ordered_sets_agree(a: Seq<Row>, b: Seq<Row>)
    requires
        ascending(a),
        distinct(a),
        ascending(b),
        distinct(b),
        forall|x: Row| a.contains(x) <==> b.contains(x),
    ensures
        a == b,
    decreases a.len(),
{
    if a.len() == 0 {
        if b.len() > 0 {
            assert(b.contains(b[0]));
        }
        assert(a =~= b);
    } else {
        assert(a.contains(a[0]));
        assert(b.len() > 0);
        assert(b.contains(b[0]));
        let i = choose|i: int| 0 <= i < b.len() && b[i] == a[0];
        let j = choose|j: int| 0 <= j < a.len() && a[j] == b[0];
        if i > 0 && j > 0 {
            row_le_antisymmetric(a[0], b[0]);
        }
        assert(a[0] == b[0]);
        let a1 = a.drop_first();
        let b1 = b.drop_first();
        assert forall|m: int, n: int| 0 <= m < n < a1.len() implies row_le(
            #[trigger] a1[m],
            #[trigger] a1[n],
        ) && a1[m] != a1[n] by {
            assert(a1[m] == a[m + 1] && a1[n] == a[n + 1]);
        }
        assert forall|m: int, n: int| 0 <= m < n < b1.len() implies row_le(
            #[trigger] b1[m],
            #[trigger] b1[n],
        ) && b1[m] != b1[n] by {
            assert(b1[m] == b[m + 1] && b1[n] == b[n + 1]);
        }
        assert forall|x: Row| a1.contains(x) <==> b1.contains(x) by {
            if a1.contains(x) {
                let m = choose|m: int| 0 <= m < a1.len() && a1[m] == x;
                assert(a[m + 1] == x);
                assert(a.contains(x));
                assert(b.contains(x));
                let n = choose|n: int| 0 <= n < b.len() && b[n] == x;
                assert(a[0] != a[m + 1]);
                assert(n > 0);
                assert(b1[n - 1] == x);
            }
            if b1.contains(x) {
                let m = choose|m: int| 0 <= m < b1.len() && b1[m] == x;
                assert(b[m + 1] == x);
                assert(b.contains(x));
                assert(a.contains(x));
                let n = choose|n: int| 0 <= n < a.len() && a[n] == x;
                assert(b[0] != b[m + 1]);
                assert(n > 0);
                assert(a1[n - 1] == x);
            }
        }
        ordered_sets_agree(a1, b1);
        assert(a =~= seq![a[0]] + a1);
        assert(b =~= seq![b[0]] + b1);
    }
}

/// Sorting adds no row.
pub proof fn sorted_keeps_rows(rs: Seq<Row>, r: Row)
    ensures
        sorted(rs).contains(r) <==> rs.contains(r),
{
    broadcast use vstd::seq_lib::group_to_multiset_ensures;

    sorted_is_ordered(rs);
    assert(sorted(rs).contains(r) <==> sorted(rs).to_multiset().count(r) > 0);
    assert(rs.contains(r) <==> rs.to_multiset().count(r) > 0);
}

/// Whether one row precedes or equals another.
pub fn row_before(a: &Vec<String>, b: &Vec<String>) -> (r: bool)
    ensures
        r == row_le(views::texts(a@), views::texts(b@)),
{
    let ghost x = views::texts(a@);
    let ghost y = views::texts(b@);
    let mut i: usize = 0;
    assert(x.skip(0) =~= x && y.skip(0) =~= y);
    while i < a.len() && i < b.len()
        invariant
            x == views::texts(a@),
            y == views::texts(b@),
            i <= a.len(),
            i <= b.len(),
            row_le(x, y) == row_le(x.skip(i as int), y.skip(i as int)),
        decreases a.len() - i,
    {
        let p = text::chars_of(a[i].as_str());
        let q = text::chars_of(b[i].as_str());
        assert(x.skip(i as int)[0] == p@ && y.skip(i as int)[0] == q@);
        assert(x.skip(i as int).drop_first() =~= x.skip(i + 1));
        assert(y.skip(i as int).drop_first() =~= y.skip(i + 1));
        if !text::same(&p, &q) {
            return text::le(&p, &q);
        }
        i += 1;
    }
    i == a.len()
}

/// Whether two rows are equal.
pub fn same_row(a: &Vec<String>, b: &Vec<String>) -> (r: bool)
    ensures
        r == (views::texts(a@) == views::texts(b@)),
{
    let ghost x = views::texts(a@);
    let ghost y = views::texts(b@);
    if a.len() != b.len() {
        assert(x.len() != y.len());
        return false;
    }
    for i in 0..a.len()
        invariant
            x == views::texts(a@),
            y == views::texts(b@),
            x.len() == y.len(),
            forall|j: int| 0 <= j < i ==> x[j] == y[j],
    {
        if !text::same_str(a[i].as_str(), b[i].as_str()) {
            assert(x[i as int] != y[i as int]);
            return false;
        }
    }
    assert(x =~= y);
    true
}

/// Where a row belongs in a list.
pub fn find_place(v: &Vec<Vec<String>>, r: &Vec<String>) -> (p: usize)
    ensures
        p == place(rows(v@), views::texts(r@)),
        p <= v.len(),
{
    let ghost all = rows(v@);
    let mut n: usize = v.len();
    assert(all.take(n as int) =~= all);
    while n > 0 && !row_before(&v[n - 1], r)
        invariant
            all == rows(v@),
            n <= v.len(),
            place(all, views::texts(r@)) == place(all.take(n as int), views::texts(r@)),
        decreases n,
    {
        assert(all.take(n as int).drop_last() =~= all.take(n - 1));
        assert(all.take(n as int).last() == views::texts(v@[n - 1]@));
        n -= 1;
    }
    if n > 0 {
        assert(all.take(n as int).last() == views::texts(v@[n - 1]@));
    }
    n
}

/// Whether a list holds a row.
pub fn has_row(v: &Vec<Vec<String>>, r: &Vec<String>) -> (b: bool)
    ensures
        b == rows(v@).contains(views::texts(r@)),
{
    let ghost all = rows(v@);
    for i in 0..v.len()
        invariant
            all == rows(v@),
            forall|j: int| 0 <= j < i ==> all[j] != views::texts(r@),
    {
        if same_row(&v[i], r) {
            assert(all[i as int] == views::texts(r@));
            return true;
        }
    }
    false
}

/// Puts a row at its place.
pub fn put_row(v: &mut Vec<Vec<String>>, r: Vec<String>)
    ensures
        rows(final(v)@) == put(rows(old(v)@), views::texts(r@)),
{
    let p = find_place(v, &r);
    let ghost before = v@;
    let ghost rv = views::texts(r@);
    v.insert(p, r);
    assert(rows(v@) =~= rows(before).insert(p as int, rv));
}

/// Puts a row at its place, unless it is there.
pub fn put_new_row(v: &mut Vec<Vec<String>>, r: Vec<String>)
    ensures
        rows(final(v)@) == put_new(rows(old(v)@), views::texts(r@)),
{
    if !has_row(v, &r) {
        put_row(v, r);
    }
}

/// A row of one text.
pub open spec fn single(s: Seq<char>) -> Row {
    seq![s]
}

/// Texts as rows of one.
pub open spec fn singles(ts: Seq<Seq<char>>) -> Seq<Row> {
    ts.map_values(|s: Seq<char>| single(s))
}

/// The first text of each row.
pub open spec fn firsts(rs: Seq<Row>) -> Seq<Seq<char>> {
    rs.map_values(|r: Row| r[0])
}

/// Texts in order, each as often as it stands.
pub open spec fn sorted_texts(ts: Seq<Seq<char>>) -> Seq<Seq<char>> {
    firsts(sorted(singles(ts)))
}

/// Texts in order, each once.
pub open spec fn sorted_text_set(ts: Seq<Seq<char>>) -> Seq<Seq<char>> {
    firsts(sorted_set(singles(ts)))
}

/// A row of one string.
pub fn single_row(s: &str) -> (r: Vec<String>)
    ensures
        views::texts(r@) == single(s@),
{
    let mut v: Vec<String> = Vec::new();
    let c = text::chars_of(s);
    v.push(text::string_of(&c));
    assert(views::texts(v@) =~= single(s@));
    v
}

/// The string at the front of each row.
fn first_strings(v: &Vec<Vec<String>>) -> (r: Vec<String>)
    requires
        forall|i: int| 0 <= i < rows(v@).len() ==> (#[trigger] rows(v@)[i]).len() > 0,
    ensures
        views::texts(r@) == firsts(rows(v@)),
{
    let ghost all = rows(v@);
    let mut out: Vec<String> = Vec::new();
    assert(views::texts(out@) =~= firsts(all).take(0));
    for i in 0..v.len()
        invariant
            all == rows(v@),
            forall|j: int| 0 <= j < all.len() ==> (#[trigger] all[j]).len() > 0,
            views::texts(out@) == firsts(all).take(i as int),
    {
        assert(all[i as int].len() > 0);
        assert(all[i as int] == views::texts(v@[i as int]@));
        assert(v@[i as int]@.len() > 0);
        let s = v[i][0].clone();
        out.push(s);
        assert(firsts(all).take(i + 1) =~= firsts(all).take(i as int).push(all[i as int][0]));
    }
    assert(firsts(all).take(all.len() as int) =~= firsts(all));
    out
}

/// Strings in order, each as often as it stands.
pub fn sort_strings(v: &Vec<String>) -> (r: Vec<String>)
    ensures
        views::texts(r@) == sorted_texts(views::texts(v@)),
{
    let ghost all = singles(views::texts(v@));
    let mut out: Vec<Vec<String>> = Vec::new();
    assert(rows(out@) =~= sorted(all.take(0)));
    for i in 0..v.len()
        invariant
            all == singles(views::texts(v@)),
            rows(out@) == sorted(all.take(i as int)),
    {
        proof {
            assert(all.take(i + 1).drop_last() =~= all.take(i as int));
            assert(all.take(i + 1).last() == single(v@[i as int]@));
        }
        put_row(&mut out, single_row(v[i].as_str()));
    }
    proof {
        assert(all.take(all.len() as int) =~= all);
        sorted_singles(all);
    }
    first_strings(&out)
}

/// Strings in order, each once.
pub fn sort_string_set(v: &Vec<String>) -> (r: Vec<String>)
    ensures
        views::texts(r@) == sorted_text_set(views::texts(v@)),
{
    let ghost all = singles(views::texts(v@));
    let mut out: Vec<Vec<String>> = Vec::new();
    assert(rows(out@) =~= sorted_set(all.take(0)));
    for i in 0..v.len()
        invariant
            all == singles(views::texts(v@)),
            rows(out@) == sorted_set(all.take(i as int)),
    {
        proof {
            assert(all.take(i + 1).drop_last() =~= all.take(i as int));
            assert(all.take(i + 1).last() == single(v@[i as int]@));
        }
        put_new_row(&mut out, single_row(v[i].as_str()));
    }
    proof {
        assert(all.take(all.len() as int) =~= all);
        sorted_set_is_ordered(all);
        assert forall|i: int| 0 <= i < sorted_set(all).len() implies (#[trigger] sorted_set(
            all,
        )[i]).len() > 0 by {
            assert(sorted_set(all).contains(sorted_set(all)[i]));
            let j = choose|j: int| 0 <= j < all.len() && all[j] == sorted_set(all)[i];
            assert(all[j].len() == 1);
        }
    }
    first_strings(&out)
}

/// Sorting rows of at least one text leaves such rows.
proof fn sorted_singles(rs: Seq<Row>)
    requires
        forall|i: int| 0 <= i < rs.len() ==> (#[trigger] rs[i]).len() > 0,
    ensures
        forall|i: int| 0 <= i < sorted(rs).len() ==> (#[trigger] sorted(rs)[i]).len() > 0,
    decreases rs.len(),
{
    if rs.len() > 0 {
        let front = rs.drop_last();
        assert forall|i: int| 0 <= i < front.len() implies (#[trigger] front[i]).len() > 0 by {
            assert(front[i] == rs[i]);
        }
        sorted_singles(front);
        sorted_is_ordered(front);
        place_parts(sorted(front), rs.last());
        let p = place(sorted(front), rs.last());
        let out = sorted(rs);
        assert(rs[rs.len() - 1].len() > 0);
        assert forall|i: int| 0 <= i < out.len() implies (#[trigger] out[i]).len() > 0 by {
            let a = if i < p { sorted(front)[i] } else if i == p { rs.last() } else { sorted(
                front,
            )[i - 1] };
            assert(out[i] == a);
        }
    }
}

/// A set of texts in order has the same texts as the list it is made of.
pub proof fn text_set_holds(ts: Seq<Seq<char>>, n: Seq<char>)
    ensures
        sorted_text_set(ts).contains(n) <==> ts.contains(n),
{
    let rs = singles(ts);
    let out = sorted_set(rs);
    sorted_set_is_ordered(rs);
    if ts.contains(n) {
        let i = choose|i: int| 0 <= i < ts.len() && ts[i] == n;
        assert(rs[i] == single(n));
        assert(rs.contains(single(n)));
        assert(out.contains(single(n)));
        let k = choose|k: int| 0 <= k < out.len() && out[k] == single(n);
        assert(firsts(out)[k] == n);
    }
    if firsts(out).contains(n) {
        let k = choose|k: int| 0 <= k < firsts(out).len() && firsts(out)[k] == n;
        assert(out.contains(out[k]));
        let i = choose|i: int| 0 <= i < rs.len() && rs[i] == out[k];
        assert(rs[i] == single(ts[i]));
    }
}

/// It is in order and has nothing twice.
pub proof fn text_set_ascends(ts: Seq<Seq<char>>, i: int, j: int)
    requires
        0 <= i < j < sorted_text_set(ts).len(),
    ensures
        text::text_le(sorted_text_set(ts)[i], sorted_text_set(ts)[j]),
        sorted_text_set(ts)[i] != sorted_text_set(ts)[j],
{
    let rs = singles(ts);
    let out = sorted_set(rs);
    sorted_set_is_ordered(rs);
    assert forall|k: int| 0 <= k < out.len() implies (#[trigger] out[k]).len() == 1 by {
        assert(out.contains(out[k]));
        let m = choose|m: int| 0 <= m < rs.len() && rs[m] == out[k];
        assert(rs[m] == single(ts[m]));
    }
    assert(row_le(out[i], out[j]));
    assert(out[i] != out[j]);
    if out[i][0] == out[j][0] {
        assert(out[i] =~= out[j]);
    }
}

/// A text comes before its own continuations, and where two texts part the
/// smaller character comes first, wherever that is.
pub proof fn texts_are_told_apart_where_they_part(
    p: Seq<char>,
    a: char,
    x: Seq<char>,
    b: char,
    y: Seq<char>,
)
    ensures
        text::text_le(p, p + x),
        x.len() > 0 ==> !text::text_le(p + x, p),
        a < b ==> text::text_le(p + (seq![a] + x), p + (seq![b] + y)),
        a < b ==> !text::text_le(p + (seq![b] + y), p + (seq![a] + x)),
    decreases p.len(),
{
    let l = seq![a] + x;
    let r = seq![b] + y;
    if p.len() == 0 {
        assert(p + x =~= x);
        assert(p + l =~= l);
        assert(p + r =~= r);
        assert(l[0] == a && r[0] == b);
    } else {
        let q = p.drop_first();
        texts_are_told_apart_where_they_part(q, a, x, b, y);
        assert((p + x).drop_first() =~= q + x);
        assert((p + l).drop_first() =~= q + l);
        assert((p + r).drop_first() =~= q + r);
        assert((p + x)[0] == p[0] && (p + l)[0] == p[0] && (p + r)[0] == p[0]);
    }
}

/// Rows are told apart by their first text that differs; a row comes before its
/// own continuations.
pub proof fn rows_are_told_apart_where_they_part(
    p: Row,
    a: Seq<char>,
    x: Row,
    b: Seq<char>,
    y: Row,
)
    ensures
        row_le(p, p + x),
        x.len() > 0 ==> !row_le(p + x, p),
        a != b ==> row_le(p + (seq![a] + x), p + (seq![b] + y)) == text::text_le(a, b),
    decreases p.len(),
{
    let l = seq![a] + x;
    let r = seq![b] + y;
    if p.len() == 0 {
        assert(p + x =~= x);
        assert(p + l =~= l);
        assert(p + r =~= r);
        assert(l[0] == a && r[0] == b);
    } else {
        let q = p.drop_first();
        rows_are_told_apart_where_they_part(q, a, x, b, y);
        assert((p + x).drop_first() =~= q + x);
        assert((p + l).drop_first() =~= q + l);
        assert((p + r).drop_first() =~= q + r);
        assert((p + x)[0] == p[0] && (p + l)[0] == p[0] && (p + r)[0] == p[0]);
    }
}

/// Texts in order are the same texts.
pub proof fn sorted_texts_hold(ts: Seq<Seq<char>>, n: Seq<char>)
    ensures
        sorted_texts(ts).contains(n) <==> ts.contains(n),
        sorted_texts(ts).len() == ts.len(),
{
    let rs = singles(ts);
    let out = sorted(rs);
    sorted_is_ordered(rs);
    sorted_keeps_rows(rs, single(n));
    if ts.contains(n) {
        let i = choose|i: int| 0 <= i < ts.len() && ts[i] == n;
        assert(rs[i] == single(n));
        let k = choose|k: int| 0 <= k < out.len() && out[k] == single(n);
        assert(firsts(out)[k] == n);
    }
    if firsts(out).contains(n) {
        let k = choose|k: int| 0 <= k < firsts(out).len() && firsts(out)[k] == n;
        sorted_keeps_rows(rs, out[k]);
        assert(out.contains(out[k]));
        let i = choose|i: int| 0 <= i < rs.len() && rs[i] == out[k];
        assert(rs[i] == single(ts[i]));
    }
}

} // verus!
