//! The files that prices are written to.
use crate::binary64;
use crate::binary64::Binary64;
use crate::decimal;
use vstd::prelude::*;
use vstd::string::*;

verus! {

/// One price per line, under a heading.
pub open spec fn final_prices_text(prices: Seq<Binary64>) -> Seq<char>
    decreases prices.len(),
{
    if prices.len() == 0 {
        "final_price\n"@
    } else {
        final_prices_text(prices.drop_last()) + decimal::fixed(prices.last(), 6) + "\n"@
    }
}

/// Cells with a comma between each two.
pub open spec fn joined(cells: Seq<Seq<char>>) -> Seq<char>
    decreases cells.len(),
{
    if cells.len() == 0 {
        Seq::empty()
    } else if cells.len() == 1 {
        cells[0]
    } else {
        joined(cells.drop_last()) + ","@ + cells.last()
    }
}

/// The headings of `n` paths.
pub open spec fn path_names(n: nat) -> Seq<Seq<char>> {
    Seq::new(n, |i: int| "path_"@ + decimal::digits(i))
}

/// The price of each path on a day.
pub open spec fn day_prices(paths: Seq<Vec<Binary64>>, day: int) -> Seq<Seq<char>> {
    Seq::new(paths.len(), |i: int| decimal::fixed(paths[i]@[day], 6))
}

/// The heading line and the lines of the first `days` days: the day and the
/// price of each path on it.
pub open spec fn paths_text(paths: Seq<Vec<Binary64>>, days: nat) -> Seq<char>
    decreases days,
{
    if days == 0 {
        "day,"@ + joined(path_names(paths.len())) + "\n"@
    } else {
        let day = days - 1;
        paths_text(paths, day as nat) + decimal::digits(day) + ","@ + joined(
            day_prices(paths, day),
        ) + "\n"@
    }
}

/// The text of the file of final prices.
pub fn final_prices_csv(prices: &[Binary64]) -> (text: String)
    ensures
        text@ == final_prices_text(prices@),
        reads_as_prices(text@, prices@),
{
    let n: usize = prices.len();
    let mut text: String = String::from_str("final_price\n");
    let mut i: usize = 0;
    proof {
        assert(prices@.take(0) =~= Seq::<Binary64>::empty());
    }
    while i < n
        invariant
            n == prices@.len(),
            i <= n,
            text@ == final_prices_text(prices@.take(i as int)),
        decreases n - i,
    {
        decimal::push_fixed(&mut text, prices[i], 6);
        text.append("\n");
        proof {
            assert(prices@.take(i + 1).drop_last() =~= prices@.take(i as int));
        }
        i = i + 1;
    }
    proof {
        assert(prices@.take(i as int) =~= prices@);
        lemma_final_prices_read_back(prices@);
    }
    text
}

proof fn lemma_joined_more(cells: Seq<Seq<char>>, i: int)
    requires
        0 <= i < cells.len(),
    ensures
        joined(cells.take(i + 1)) == if i == 0 {
            cells[0]
        } else {
            joined(cells.take(i)) + ","@ + cells[i]
        },
{
    assert(cells.take(i + 1).drop_last() =~= cells.take(i));
}

fn push_path_names(text: &mut String, n: usize)
    ensures
        final(text)@ == old(text)@ + joined(path_names(n as nat)),
{
    let ghost start = text@;
    let ghost cells = path_names(n as nat);
    let mut i: usize = 0;
    proof {
        assert(joined(cells.take(0)) =~= Seq::<char>::empty());
        assert(text@ =~= start + joined(cells.take(0)));
    }
    while i < n
        invariant
            cells == path_names(n as nat),
            i <= n,
            text@ == start + joined(cells.take(i as int)),
        decreases n - i,
    {
        if i > 0 {
            text.append(",");
        }
        text.append("path_");
        decimal::push_digits(text, i as u128);
        proof {
            lemma_joined_more(cells, i as int);
            assert(cells[i as int] == "path_"@ + decimal::digits(i as int));
            if i == 0 {
                assert(joined(cells.take(0)) =~= Seq::<char>::empty());
            }
            assert(text@ =~= start + joined(cells.take(i + 1)));
        }
        i = i + 1;
    }
    proof {
        assert(cells.take(i as int) =~= cells);
    }
}

fn push_day_prices(text: &mut String, paths: &Vec<Vec<Binary64>>, day: usize)
    requires
        forall|i: int| 0 <= i < paths@.len() ==> day < (#[trigger] paths@[i])@.len(),
    ensures
        final(text)@ == old(text)@ + joined(day_prices(paths@, day as int)),
{
    let ghost start = text@;
    let ghost cells = day_prices(paths@, day as int);
    let mut i: usize = 0;
    proof {
        assert(joined(cells.take(0)) =~= Seq::<char>::empty());
        assert(text@ =~= start + joined(cells.take(0)));
    }
    while i < paths.len()
        invariant
            forall|j: int| 0 <= j < paths@.len() ==> day < (#[trigger] paths@[j])@.len(),
            cells == day_prices(paths@, day as int),
            i <= paths@.len(),
            text@ == start + joined(cells.take(i as int)),
        decreases paths@.len() - i,
    {
        if i > 0 {
            text.append(",");
        }
        decimal::push_fixed(text, paths[i][day], 6);
        proof {
            lemma_joined_more(cells, i as int);
            assert(cells[i as int] == decimal::fixed(paths@[i as int]@[day as int], 6));
            if i == 0 {
                assert(joined(cells.take(0)) =~= Seq::<char>::empty());
            }
            assert(text@ =~= start + joined(cells.take(i + 1)));
        }
        i = i + 1;
    }
    proof {
        assert(cells.take(i as int) =~= cells);
    }
}

/// No path is shorter than the first one, and there is a first one.
pub open spec fn is_rectangular(paths: Seq<Vec<Binary64>>) -> bool {
    paths.len() > 0 && forall|i: int|
        0 <= i < paths.len() ==> paths[0]@.len() <= (#[trigger] paths[i])@.len()
}

/// Whether no path is shorter than the first one, and there is a first one.
pub fn rectangular(paths: &Vec<Vec<Binary64>>) -> (b: bool)
    ensures
        b == is_rectangular(paths@),
        b == (paths@.len() > 0 && forall|i: int|
            0 <= i < paths@.len() ==> paths@[0]@.len() <= (#[trigger] paths@[i])@.len()),
{
    if paths.len() == 0 {
        return false;
    }
    let mut i: usize = 0;
    while i < paths.len()
        invariant
            paths@.len() > 0,
            i <= paths@.len(),
            forall|j: int| 0 <= j < i ==> paths@[0]@.len() <= (#[trigger] paths@[j])@.len(),
        decreases paths@.len() - i,
    {
        if paths[i].len() < paths[0].len() {
            assert(paths@[i as int]@.len() < paths@[0]@.len());
            return false;
        }
        i = i + 1;
    }
    true
}

/// The text of the file of sample paths: as many days as the first path has.
pub fn paths_csv(paths: &Vec<Vec<Binary64>>) -> (text: String)
    requires
        paths@.len() > 0,
        forall|i: int|
            0 <= i < paths@.len() ==> paths@[0]@.len() <= (#[trigger] paths@[i])@.len(),
    ensures
        text@ == paths_text(paths@, paths@[0]@.len()),
        reads_as_paths(text@, paths@, paths@[0]@.len()),
{
    let days: usize = paths[0].len();
    let mut text: String = String::from_str("day,");
    push_path_names(&mut text, paths.len());
    text.append("\n");
    let mut day: usize = 0;
    while day < days
        invariant
            day <= days,
            days == paths@[0]@.len(),
            forall|i: int|
                0 <= i < paths@.len() ==> paths@[0]@.len() <= (#[trigger] paths@[i])@.len(),
            text@ == paths_text(paths@, day as nat),
        decreases days - day,
    {
        decimal::push_digits(&mut text, day as u128);
        text.append(",");
        push_day_prices(&mut text, paths, day);
        text.append("\n");
        day = day + 1;
    }
    proof {
        lemma_paths_read_back(paths@, days as nat);
    }
    text
}

/// Being the character `c`.
pub open spec fn is_char(c: char) -> spec_fn(char) -> bool {
    |x: char| x == c
}

/// How often `c` occurs in a text.
pub open spec fn occurrences(s: Seq<char>, c: char) -> nat {
    s.filter(is_char(c)).len()
}

proof fn lemma_occurrences_add(a: Seq<char>, b: Seq<char>, c: char)
    ensures
        occurrences(a + b, c) == occurrences(a, c) + occurrences(b, c),
{
    Seq::filter_distributes_over_add(a, b, is_char(c));
}

proof fn lemma_occurrences_none(s: Seq<char>, c: char)
    requires
        forall|i: int| 0 <= i < s.len() ==> s[i] != c,
    ensures
        occurrences(s, c) == 0,
    decreases s.len(),
{
    s.lemma_filter_len(is_char(c));
    if s.len() > 0 {
        lemma_occurrences_none(s.drop_last(), c);
        s.drop_last().lemma_filter_push(s.last(), is_char(c));
        assert(s.drop_last().push(s.last()) =~= s);
    }
}

proof fn lemma_occurrences_last(s: Seq<char>, c: char, d: char)
    requires
        forall|i: int| 0 <= i < s.len() ==> s[i] != c,
    ensures
        occurrences(s.push(d), c) == if d == c { 1nat } else { 0nat },
{
    lemma_occurrences_none(s, c);
    s.lemma_filter_push(d, is_char(c));
}

/// What the fixed parts of the files hold of commas and line ends.
proof fn lemma_literals()
    ensures
        occurrences("\n"@, '\n') == 1,
        occurrences("\n"@, ',') == 0,
        occurrences(","@, ',') == 1,
        occurrences(","@, '\n') == 0,
        occurrences("day,"@, ',') == 1,
        occurrences("day,"@, '\n') == 0,
        occurrences("final_price\n"@, '\n') == 1,
        decimal::plain("path_"@),
{
    reveal_strlit("\n");
    reveal_strlit(",");
    reveal_strlit("day,");
    reveal_strlit("final_price\n");
    reveal_strlit("path_");
    let e = Seq::<char>::empty();
    assert("\n"@ =~= e.push('\n'));
    assert(","@ =~= e.push(','));
    assert("day,"@ =~= seq!['d', 'a', 'y'].push(','));
    assert("final_price\n"@ =~= seq!['f', 'i', 'n', 'a', 'l', '_', 'p', 'r', 'i', 'c', 'e'].push(
        '\n',
    ));
    lemma_occurrences_last(e, '\n', '\n');
    lemma_occurrences_last(e, ',', '\n');
    lemma_occurrences_last(e, ',', ',');
    lemma_occurrences_last(e, '\n', ',');
    lemma_occurrences_last(seq!['d', 'a', 'y'], ',', ',');
    lemma_occurrences_last(seq!['d', 'a', 'y'], '\n', ',');
    lemma_occurrences_last(
        seq!['f', 'i', 'n', 'a', 'l', '_', 'p', 'r', 'i', 'c', 'e'],
        '\n',
        '\n',
    );
}

/// The file of final prices has one line for each price, and the heading.
pub proof fn lemma_one_price_per_line(prices: Seq<Binary64>)
    ensures
        occurrences(final_prices_text(prices), '\n') == prices.len() + 1,
    decreases prices.len(),
{
    lemma_literals();
    if prices.len() > 0 {
        lemma_one_price_per_line(prices.drop_last());
        let before = final_prices_text(prices.drop_last());
        let cell = decimal::fixed(prices.last(), 6);
        decimal::lemma_fixed_plain(prices.last(), 6);
        lemma_occurrences_none(cell, '\n');
        lemma_occurrences_add(before + cell, "\n"@, '\n');
        lemma_occurrences_add(before, cell, '\n');
    }
}

proof fn lemma_joined_shape(cells: Seq<Seq<char>>)
    requires
        cells.len() > 0,
        forall|i: int| 0 <= i < cells.len() ==> decimal::plain(#[trigger] cells[i]),
    ensures
        occurrences(joined(cells), ',') == cells.len() - 1,
        occurrences(joined(cells), '\n') == 0,
    decreases cells.len(),
{
    lemma_literals();
    let last = cells.last();
    assert(last == cells[cells.len() - 1]);
    lemma_occurrences_none(last, ',');
    lemma_occurrences_none(last, '\n');
    if cells.len() > 1 {
        let rest = cells.drop_last();
        assert forall|i: int| 0 <= i < rest.len() implies decimal::plain(#[trigger] rest[i]) by {
            assert(rest[i] == cells[i]);
        }
        lemma_joined_shape(rest);
        lemma_occurrences_add(joined(rest) + ","@, last, ',');
        lemma_occurrences_add(joined(rest), ","@, ',');
        lemma_occurrences_add(joined(rest) + ","@, last, '\n');
        lemma_occurrences_add(joined(rest), ","@, '\n');
    }
}

/// The file of sample paths has one line for each day, and the heading, and on
/// each line one cell for each path behind the first one.
pub proof fn lemma_rows_and_columns(paths: Seq<Vec<Binary64>>, days: nat)
    requires
        paths.len() > 0,
    ensures
        occurrences(paths_text(paths, days), '\n') == days + 1,
        occurrences(paths_text(paths, days), ',') == (days + 1) * paths.len(),
    decreases days,
{
    lemma_literals();
    let n = paths.len();
    if days == 0 {
        let names = path_names(n);
        assert forall|i: int| 0 <= i < names.len() implies decimal::plain(#[trigger] names[i]) by {
            decimal::lemma_digits_plain(i);
        }
        lemma_joined_shape(names);
        let head = "day,"@ + joined(names);
        lemma_occurrences_add("day,"@, joined(names), ',');
        lemma_occurrences_add("day,"@, joined(names), '\n');
        lemma_occurrences_add(head, "\n"@, ',');
        lemma_occurrences_add(head, "\n"@, '\n');
        assert((0nat + 1) * n == n) by (nonlinear_arith);
    } else {
        let day = days - 1;
        lemma_rows_and_columns(paths, day as nat);
        let before = paths_text(paths, day as nat);
        let cells = day_prices(paths, day);
        assert forall|i: int| 0 <= i < cells.len() implies decimal::plain(#[trigger] cells[i]) by {
            decimal::lemma_fixed_plain(paths[i]@[day], 6);
        }
        lemma_joined_shape(cells);
        let label = decimal::digits(day);
        decimal::lemma_digits_plain(day);
        lemma_occurrences_none(label, ',');
        lemma_occurrences_none(label, '\n');
        let (a, b) = (before + label, before + label + ","@);
        let c = b + joined(cells);
        lemma_occurrences_add(before, label, ',');
        lemma_occurrences_add(before, label, '\n');
        lemma_occurrences_add(a, ","@, ',');
        lemma_occurrences_add(a, ","@, '\n');
        lemma_occurrences_add(b, joined(cells), ',');
        lemma_occurrences_add(b, joined(cells), '\n');
        lemma_occurrences_add(c, "\n"@, ',');
        lemma_occurrences_add(c, "\n"@, '\n');
        assert((days + 1) * n == days * n + n) by (nonlinear_arith);
    }
}

/// The parts of a text between occurrences of `c`.
pub open spec fn split(s: Seq<char>, c: char) -> Seq<Seq<char>>
    decreases s.len(),
{
    if s.len() == 0 {
        seq![Seq::empty()]
    } else {
        let before = split(s.drop_last(), c);
        if s.last() == c {
            before.push(Seq::empty())
        } else {
            before.drop_last().push(before.last().push(s.last()))
        }
    }
}

proof fn lemma_split_some(s: Seq<char>, c: char)
    ensures
        split(s, c).len() > 0,
    decreases s.len(),
{
    if s.len() > 0 {
        lemma_split_some(s.drop_last(), c);
    }
}

/// Text without separators adds to the last part.
proof fn lemma_split_more(a: Seq<char>, b: Seq<char>, c: char)
    requires
        forall|i: int| 0 <= i < b.len() ==> b[i] != c,
    ensures
        split(a + b, c) == split(a, c).drop_last().push(split(a, c).last() + b),
    decreases b.len(),
{
    lemma_split_some(a, c);
    if b.len() == 0 {
        assert(a + b =~= a);
        assert(split(a, c).last() + b =~= split(a, c).last());
        assert(split(a, c) =~= split(a, c).drop_last().push(split(a, c).last()));
    } else {
        let d = b.drop_last();
        lemma_split_more(a, d, c);
        assert((a + b).drop_last() =~= a + d);
        assert((a + b).last() == b.last());
        let (x, y) = (split(a, c).drop_last(), split(a, c).last());
        assert(x.push(y + d).drop_last() =~= x);
        assert((y + d).push(b.last()) =~= y + b);
    }
}

/// A separator starts a new part.
proof fn lemma_split_next(a: Seq<char>, c: char)
    ensures
        split(a.push(c), c) == split(a, c).push(Seq::empty()),
{
    assert(a.push(c).drop_last() =~= a);
}

/// Text without separators is one part.
proof fn lemma_split_one(b: Seq<char>, c: char)
    requires
        forall|i: int| 0 <= i < b.len() ==> b[i] != c,
    ensures
        split(b, c) == seq![b],
{
    let e = Seq::<char>::empty();
    lemma_split_more(e, b, c);
    assert(e + b =~= b);
    assert(split(e, c) =~= seq![e]);
    assert(split(b, c) =~= seq![b]);
}

/// The parts on both sides of a separator.
proof fn lemma_split_at(a: Seq<char>, b: Seq<char>, c: char)
    ensures
        split(a.push(c) + b, c) == split(a, c) + split(b, c),
    decreases b.len(),
{
    lemma_split_some(b, c);
    if b.len() == 0 {
        assert(a.push(c) + b =~= a.push(c));
        lemma_split_next(a, c);
        assert(split(b, c) =~= seq![Seq::<char>::empty()]);
        assert(split(a, c).push(Seq::empty()) =~= split(a, c) + split(b, c));
    } else {
        let d = b.drop_last();
        lemma_split_at(a, d, c);
        lemma_split_some(d, c);
        assert((a.push(c) + b).drop_last() =~= a.push(c) + d);
        assert((a.push(c) + b).last() == b.last());
        let (x, y) = (split(a, c), split(d, c));
        if b.last() == c {
            assert((x + y).push(Seq::empty()) =~= x + y.push(Seq::empty()));
        } else {
            assert((x + y).drop_last() =~= x + y.drop_last());
            assert((x + y).last() == y.last());
            let z = y.last().push(b.last());
            assert((x + y.drop_last()).push(z) =~= x + y.drop_last().push(z));
        }
    }
}

/// Joined cells split again.
proof fn lemma_joined_splits(cells: Seq<Seq<char>>)
    requires
        cells.len() > 0,
        forall|i: int| 0 <= i < cells.len() ==> decimal::plain(#[trigger] cells[i]),
    ensures
        split(joined(cells), ',') == cells,
        forall|i: int| 0 <= i < joined(cells).len() ==> joined(cells)[i] != '\n',
    decreases cells.len(),
{
    reveal_strlit(",");
    let last = cells.last();
    assert(last == cells[cells.len() - 1]);
    if cells.len() == 1 {
        lemma_split_one(last, ',');
        assert(seq![last] =~= cells);
    } else {
        let rest = cells.drop_last();
        assert forall|i: int| 0 <= i < rest.len() implies decimal::plain(#[trigger] rest[i]) by {
            assert(rest[i] == cells[i]);
        }
        lemma_joined_splits(rest);
        let a = joined(rest);
        assert(a + ","@ =~= a.push(','));
        lemma_split_at(a, last, ',');
        lemma_split_one(last, ',');
        assert(rest + seq![last] =~= cells);
    }
}

/// One more line.
proof fn lemma_line_added(before: Seq<char>, line: Seq<char>)
    requires
        split(before, '\n').len() > 0,
        split(before, '\n').last() == Seq::<char>::empty(),
        forall|i: int| 0 <= i < line.len() ==> line[i] != '\n',
    ensures
        split(before + line + "\n"@, '\n') == split(before, '\n').drop_last().push(line).push(
            Seq::empty(),
        ),
{
    reveal_strlit("\n");
    lemma_split_more(before, line, '\n');
    assert(Seq::<char>::empty() + line =~= line);
    assert(before + line + "\n"@ =~= (before + line).push('\n'));
    lemma_split_next(before + line, '\n');
}

/// The file of final prices, read again: under the heading, one line for each price,
/// which denotes it to six decimals, in order.
pub open spec fn reads_as_prices(text: Seq<char>, prices: Seq<Binary64>) -> bool {
    let rows = split(text, '\n');
    &&& rows.len() == prices.len() + 2
    &&& rows[0] == "final_price"@
    &&& rows.last() == Seq::<char>::empty()
    &&& forall|i: int|
        0 <= i < prices.len() ==> decimal::denotes(rows[i + 1], #[trigger] prices[i], 6)
}

/// The file of final prices reads back as the prices.
pub proof fn lemma_final_prices_read_back(prices: Seq<Binary64>)
    ensures
        reads_as_prices(final_prices_text(prices), prices),
    decreases prices.len(),
{
    let e = Seq::<char>::empty();
    reveal_strlit("final_price\n");
    reveal_strlit("final_price");
    if prices.len() == 0 {
        let head = "final_price"@;
        assert("final_price\n"@ =~= head.push('\n'));
        lemma_split_one(head, '\n');
        lemma_split_next(head, '\n');
    } else {
        let (rest, x) = (prices.drop_last(), prices.last());
        lemma_final_prices_read_back(rest);
        let before = final_prices_text(rest);
        let line = decimal::fixed(x, 6);
        decimal::lemma_fixed_plain(x, 6);
        decimal::lemma_fixed_reads_back(x, 6);
        lemma_line_added(before, line);
        let (old_rows, rows) = (split(before, '\n'), split(final_prices_text(prices), '\n'));
        assert forall|i: int| 0 <= i < prices.len() implies decimal::denotes(
            rows[i + 1],
            #[trigger] prices[i],
            6,
        ) by {
            if i < rest.len() {
                assert(decimal::denotes(old_rows[i + 1], rest[i], 6));
            }
        }
    }
}

/// A row of sample prices, read again: the day, and each path's price on that day to
/// six decimals, in the order of the paths.
pub open spec fn reads_as_day(row: Seq<char>, paths: Seq<Vec<Binary64>>, day: int) -> bool {
    let cells = split(row, ',');
    &&& cells.len() == paths.len() + 1
    &&& decimal::is_numeral(cells[0], 0)
    &&& decimal::denoted(cells[0], 0) == day
    &&& forall|i: int|
        0 <= i < paths.len() ==> decimal::denotes(cells[i + 1], (#[trigger] paths[i])@[day], 6)
}

/// The heading of sample prices, read again: the column of days, and one column for
/// each path, numbered from zero.
pub open spec fn reads_as_heading(row: Seq<char>, n: nat) -> bool {
    let cells = split(row, ',');
    &&& cells.len() == n + 1
    &&& cells[0] == "day"@
    &&& forall|i: int| #![trigger cells[i + 1]]
        0 <= i < n ==> cells[i + 1].len() > 5 && cells[i + 1].take(5) == "path_"@
            && decimal::is_numeral(cells[i + 1].skip(5), 0) && decimal::denoted(
            cells[i + 1].skip(5),
            0,
        ) == i
}

/// The file of sample paths, read again: under the heading, one row for each day from
/// the first on.
pub open spec fn reads_as_paths(text: Seq<char>, paths: Seq<Vec<Binary64>>, days: nat) -> bool {
    let rows = split(text, '\n');
    &&& rows.len() == days + 2
    &&& reads_as_heading(rows[0], paths.len())
    &&& rows.last() == Seq::<char>::empty()
    &&& forall|day: int| #![trigger rows[day + 1]]
        0 <= day < days ==> reads_as_day(rows[day + 1], paths, day)
}

proof fn lemma_row(paths: Seq<Vec<Binary64>>, day: int)
    requires
        paths.len() > 0,
        0 <= day,
    ensures
        ({
            let row = decimal::digits(day) + ","@ + joined(day_prices(paths, day));
            &&& reads_as_day(row, paths, day)
            &&& forall|i: int| 0 <= i < row.len() ==> row[i] != '\n'
        }),
{
    reveal_strlit(",");
    let cells = day_prices(paths, day);
    let label = decimal::digits(day);
    let row = label + ","@ + joined(cells);
    assert forall|i: int| 0 <= i < cells.len() implies decimal::plain(#[trigger] cells[i]) by {
        decimal::lemma_fixed_plain(paths[i]@[day], 6);
    }
    lemma_joined_splits(cells);
    decimal::lemma_digits_plain(day);
    decimal::lemma_digits_are_digits(day);
    decimal::lemma_digits_read_back(day);
    assert(decimal::is_digit(label[0]));
    assert(label + ","@ =~= label.push(','));
    lemma_split_at(label, joined(cells), ',');
    lemma_split_one(label, ',');
    assert(split(row, ',') =~= seq![label] + cells);
    assert forall|i: int| 0 <= i < paths.len() implies decimal::denotes(
        split(row, ',')[i + 1],
        (#[trigger] paths[i])@[day],
        6,
    ) by {
        assert(split(row, ',')[i + 1] == cells[i]);
        decimal::lemma_fixed_reads_back(paths[i]@[day], 6);
    }
}

proof fn lemma_heading(n: nat)
    requires
        n > 0,
    ensures
        reads_as_heading("day,"@ + joined(path_names(n)), n),
        ({
            let row = "day,"@ + joined(path_names(n));
            forall|i: int| 0 <= i < row.len() ==> row[i] != '\n'
        }),
{
    reveal_strlit("day,");
    reveal_strlit("day");
    reveal_strlit("path_");
    let names = path_names(n);
    let row = "day,"@ + joined(names);
    assert forall|i: int| 0 <= i < names.len() implies decimal::plain(#[trigger] names[i]) by {
        decimal::lemma_digits_plain(i);
    }
    lemma_joined_splits(names);
    assert("day,"@ =~= "day"@.push(','));
    lemma_split_at("day"@, joined(names), ',');
    lemma_split_one("day"@, ',');
    let cells = split(row, ',');
    assert(cells =~= seq!["day"@] + names);
    assert forall|i: int| #![trigger cells[i + 1]] 0 <= i < n implies cells[i + 1].len() > 5
        && cells[i + 1].take(5) == "path_"@ && decimal::is_numeral(cells[i + 1].skip(5), 0)
        && decimal::denoted(cells[i + 1].skip(5), 0) == i by {
        assert(cells[i + 1] == names[i]);
        let d = decimal::digits(i);
        decimal::lemma_digits_are_digits(i);
        decimal::lemma_digits_read_back(i);
        assert(decimal::is_digit(d[0]));
        assert(names[i].take(5) =~= "path_"@);
        assert(names[i].skip(5) =~= d);
    }
}

/// The file of sample paths reads back as the paths: for every day and every path, the
/// cell in that day's row and that path's column denotes that path's price on that
/// day.
pub proof fn lemma_paths_read_back(paths: Seq<Vec<Binary64>>, days: nat)
    requires
        paths.len() > 0,
    ensures
        reads_as_paths(paths_text(paths, days), paths, days),
    decreases days,
{
    let text = paths_text(paths, days);
    reveal_strlit("\n");
    if days == 0 {
        let row = "day,"@ + joined(path_names(paths.len()));
        lemma_heading(paths.len());
        assert(text =~= row.push('\n'));
        lemma_split_one(row, '\n');
        lemma_split_next(row, '\n');
    } else {
        let day = days - 1;
        lemma_paths_read_back(paths, day as nat);
        lemma_row(paths, day);
        let before = paths_text(paths, day as nat);
        let row = decimal::digits(day) + ","@ + joined(day_prices(paths, day));
        lemma_line_added(before, row);
        assert(text =~= before + row + "\n"@);
        let (old_rows, rows) = (split(before, '\n'), split(text, '\n'));
        assert forall|d: int| #![trigger rows[d + 1]] 0 <= d < days implies reads_as_day(
            rows[d + 1],
            paths,
            d,
        ) by {
            if d < day {
                assert(reads_as_day(old_rows[d + 1], paths, d));
            }
        }
    }
}

/// Paths that differ on some day by more than the last decimal is worth give
/// different files.
pub proof fn lemma_files_tell_paths_apart(
    a: Seq<Vec<Binary64>>,
    b: Seq<Vec<Binary64>>,
    days: nat,
    day: int,
    i: int,
)
    requires
        a.len() == b.len(),
        0 <= i < a.len(),
        0 <= day < days,
        a[i]@[day].finite(),
        b[i]@[day].finite(),
        vstd::math::abs(a[i]@[day].value() - b[i]@[day].value()) * 1_000_000 > binary64::one(),
    ensures
        paths_text(a, days) != paths_text(b, days),
{
    lemma_paths_read_back(a, days);
    lemma_paths_read_back(b, days);
    if paths_text(a, days) == paths_text(b, days) {
        let rows = split(paths_text(a, days), '\n');
        assert(reads_as_day(rows[day + 1], a, day));
        assert(reads_as_day(rows[day + 1], b, day));
        let cell = split(rows[day + 1], ',')[i + 1];
        assert(decimal::denotes(cell, a[i]@[day], 6));
        assert(decimal::denotes(cell, b[i]@[day], 6));
        reveal_with_fuel(decimal::ten, 7);
        let (x, y) = (a[i]@[day].value(), b[i]@[day].value());
        let t = decimal::ten(6);
        assert(t == 1_000_000);
        assert(x * t == 1_000_000 * x && y * t == 1_000_000 * y) by (nonlinear_arith)
            requires
                t == 1_000_000,
        ;
    }
}

/// Paths can be written as a table exactly where there is one, and every day of the
/// first is a day of each.
pub proof fn lemma_rectangular(paths: Seq<Vec<Binary64>>)
    ensures
        is_rectangular(paths) <==> paths.len() > 0 && forall|i: int, day: int|
            #![trigger paths[i]@[day]]
            0 <= i < paths.len() && 0 <= day < paths[0]@.len() ==> day < paths[i]@.len(),
{
    if !is_rectangular(paths) && paths.len() > 0 {
        let i = choose|i: int|
            0 <= i < paths.len() && paths[0]@.len() > (#[trigger] paths[i])@.len();
        let day = paths[i]@.len() as int;
        let cell = paths[i]@[day];
        assert(0 <= i < paths.len() && 0 <= day < paths[0]@.len() && !(day < paths[i]@.len()));
    }
    if is_rectangular(paths) {
        assert forall|i: int, day: int|
            #![trigger paths[i]@[day]]
            0 <= i < paths.len() && 0 <= day < paths[0]@.len() implies day < paths[i]@.len() by {
            assert(paths[0]@.len() <= paths[i]@.len());
        }
    }
}

} // verus!
