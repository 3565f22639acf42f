//! The text form of a store: one `label,timestamp` record per line.

use crate::decimal::{
    append_decimal, decimal, is_digit, lemma_decimal_is_digits, lemma_timestamp_of_decimal,
    parse_timestamp, timestamp_of,
};
use crate::error::{MalformedRecord, Reason};
use crate::store::{
    distinct_labels, has_label, lemma_upsert_keeps_distinct, upsert, Entries, Store,
};
use vstd::prelude::*;
use vstd::slice::slice_subrange;
use vstd::std_specs::iter::IteratorSpec;

verus! {

/// Whether `c` is white space: a character with the Unicode property
/// `White_Space`.
pub open spec fn is_white_space(c: char) -> bool {
    let u = c as u32;
    ||| 0x09 <= u <= 0x0D
    ||| u == 0x20
    ||| u == 0x85
    ||| u == 0xA0
    ||| u == 0x1680
    ||| 0x2000 <= u <= 0x200A
    ||| u == 0x2028
    ||| u == 0x2029
    ||| u == 0x202F
    ||| u == 0x205F
    ||| u == 0x3000
}

/// Whether a line is blank: empty, or white space throughout.
pub open spec fn is_blank(line: Seq<char>) -> bool {
    forall|i: int| 0 <= i < line.len() ==> is_white_space(#[trigger] line[i])
}

/// The index of the first `c` in `s`, or the length of `s` where it holds
/// none.
pub open spec fn first_index(s: Seq<char>, c: char) -> nat
    decreases s.len(),
{
    if s.len() == 0 || s[0] == c {
        0
    } else {
        1 + first_index(s.skip(1), c)
    }
}

/// A line without the carriage return that it may end in.
pub open spec fn strip_cr(line: Seq<char>) -> Seq<char> {
    if line.len() > 0 && line.last() == '\r' {
        line.drop_last()
    } else {
        line
    }
}

/// The first line of a text that is not empty: what stands before its first
/// line feed, without the carriage return that may precede the line feed; the
/// whole text where it holds no line feed.
pub open spec fn first_line(text: Seq<char>) -> Seq<char> {
    let k = first_index(text, '\n') as int;
    if k < text.len() {
        strip_cr(text.take(k))
    } else {
        text
    }
}

/// What follows the first line of a text and its line feed.
pub open spec fn after_first_line(text: Seq<char>) -> Seq<char> {
    let k = first_index(text, '\n') as int;
    if k < text.len() {
        text.skip(k + 1)
    } else {
        Seq::empty()
    }
}

/// The lines of a text. A line ends at a line feed, or at a carriage return
/// directly followed by one; neither belongs to the line. The last line needs
/// no line feed, and a text that ends in one has no empty line after it.
pub open spec fn split_lines(text: Seq<char>) -> Seq<Seq<char>>
    decreases text.len(),
{
    if text.len() == 0 {
        Seq::empty()
    } else {
        seq![first_line(text)] + split_lines(after_first_line(text))
    }
}

/// The record that a line holds. The label is what stands before the first
/// comma, taken as it is. The timestamp is read from the second field, which
/// runs from the first comma to the next one or to the end of the line; what
/// follows a second comma is not looked at.
pub open spec fn parse_record(line: Seq<char>) -> Result<(Seq<char>, u128), Reason> {
    let comma = first_index(line, ',') as int;
    if comma == line.len() {
        Err(Reason::InsufficientValues)
    } else {
        let rest = line.skip(comma + 1);
        let field = rest.take(first_index(rest, ',') as int);
        match timestamp_of(field) {
            Some(timestamp) => Ok((line.take(comma), timestamp)),
            None => Err(Reason::InvalidValue),
        }
    }
}

/// What reading `lines` from line `k` on makes of the entries `acc` read so
/// far. A blank line changes nothing; a record is recorded over what came
/// before, so of two lines with one label the later one counts; the first
/// line that is neither ends the reading with its number and the reason.
pub open spec fn decode_from(lines: Seq<Seq<char>>, k: nat, acc: Entries) -> Result<
    Entries,
    MalformedRecord,
>
    decreases lines.len() - k,
{
    if k >= lines.len() {
        Ok(acc)
    } else if is_blank(lines[k as int]) {
        decode_from(lines, k + 1, acc)
    } else {
        match parse_record(lines[k as int]) {
            Ok((label, timestamp)) => decode_from(lines, k + 1, upsert(acc, label, timestamp)),
            Err(reason) => Err(MalformedRecord { line: (k + 1) as usize, reason }),
        }
    }
}

/// The entries that a text stands for, or its first malformed line.
pub open spec fn decode(text: Seq<char>) -> Result<Entries, MalformedRecord> {
    decode_from(split_lines(text), 0, Seq::empty())
}

/// The record that stands for one entry: its label, a comma, and its
/// timestamp in decimal notation.
pub open spec fn record_text(entry: (Seq<char>, u128)) -> Seq<char> {
    entry.0 + seq![','] + decimal(entry.1 as nat)
}

/// The line of text that stands for one entry, line feed included.
pub open spec fn record_line(entry: (Seq<char>, u128)) -> Seq<char> {
    record_text(entry) + seq!['\n']
}

/// The text that stands for `es`: the line of each entry, in order.
pub open spec fn encode(es: Entries) -> Seq<char>
    decreases es.len(),
{
    if es.len() == 0 {
        Seq::empty()
    } else {
        encode(es.drop_last()) + record_line(es.last())
    }
}

/// Whether `label` can stand in a line: it holds no comma, which would end
/// it, and no line feed, which would end the line.
pub open spec fn plain_label(label: Seq<char>) -> bool {
    forall|i: int| 0 <= i < label.len() ==> #[trigger] label[i] != ',' && label[i] != '\n'
}

/// Whether `es` can be written and read back: every label can stand in a
/// line.
pub open spec fn writable(es: Entries) -> bool {
    forall|i: int| 0 <= i < es.len() ==> plain_label((#[trigger] es[i]).0)
}

/// `first_index` finds the first occurrence: nothing before it is `c`, and
/// where it is an index of `s` it holds `c`.
pub proof fn lemma_first_index(s: Seq<char>, c: char)
    ensures
        first_index(s, c) <= s.len(),
        forall|j: int| 0 <= j < first_index(s, c) ==> s[j] != c,
        first_index(s, c) < s.len() ==> s[first_index(s, c) as int] == c,
    decreases s.len(),
{
    if s.len() == 0 || s[0] == c {
    } else {
        lemma_first_index(s.skip(1), c);
        assert forall|j: int| 0 <= j < first_index(s, c) implies s[j] != c by {
            if j > 0 {
                assert(s[j] == s.skip(1)[j - 1]);
            }
        }
    }
}

/// An index before which `s` holds no `c`, and which is the end of `s` or
/// holds `c`, is what `first_index` finds.
pub proof fn lemma_first_index_is(s: Seq<char>, c: char, k: int)
    requires
        0 <= k <= s.len(),
        forall|j: int| 0 <= j < k ==> s[j] != c,
        k < s.len() ==> s[k] == c,
    ensures
        first_index(s, c) == k,
    decreases s.len(),
{
    if s.len() == 0 || s[0] == c {
    } else {
        assert forall|j: int| 0 <= j < k - 1 implies s.skip(1)[j] != c by {
            assert(s.skip(1)[j] == s[j + 1]);
        }
        lemma_first_index_is(s.skip(1), c, k - 1);
    }
}

/// The first `c` of a text is found in the text with more text after it.
pub proof fn lemma_first_index_concat(a: Seq<char>, b: Seq<char>, c: char)
    requires
        first_index(a, c) < a.len(),
    ensures
        first_index(a + b, c) == first_index(a, c),
{
    lemma_first_index(a, c);
    lemma_first_index_is(a + b, c, first_index(a, c) as int);
}

/// The lines of two texts, the first of which is empty or ends in a line
/// feed, are the lines of the first and then the lines of the second.
pub proof fn lemma_split_lines_concat(a: Seq<char>, b: Seq<char>)
    requires
        a.len() == 0 || a.last() == '\n',
    ensures
        split_lines(a + b) == split_lines(a) + split_lines(b),
    decreases a.len(),
{
    if a.len() == 0 {
        assert(a + b =~= b);
        assert(split_lines(a) + split_lines(b) =~= split_lines(b));
    } else {
        let k = first_index(a, '\n') as int;
        lemma_first_index(a, '\n');
        assert(k < a.len()) by {
            if k == a.len() {
                assert(a[a.len() - 1] != '\n');
            }
        }
        lemma_first_index_concat(a, b, '\n');
        assert((a + b).take(k) =~= a.take(k));
        assert((a + b).skip(k + 1) =~= a.skip(k + 1) + b);
        let rest = a.skip(k + 1);
        assert(rest.len() == 0 || rest.last() == '\n') by {
            if rest.len() > 0 {
                assert(rest.last() == a.last());
            }
        }
        lemma_split_lines_concat(rest, b);
        assert(split_lines(a + b) =~= split_lines(a) + split_lines(b));
    }
}

/// A text without line feed that does not end in a carriage return, with a
/// line feed after it, is one line.
pub proof fn lemma_split_one_line(body: Seq<char>)
    requires
        forall|i: int| 0 <= i < body.len() ==> body[i] != '\n',
        body.len() == 0 || body.last() != '\r',
    ensures
        split_lines(body + seq!['\n']) == seq![body],
{
    let text = body + seq!['\n'];
    lemma_first_index_is(text, '\n', body.len() as int);
    assert(text.take(body.len() as int) =~= body);
    assert(text.skip(body.len() as int + 1) =~= Seq::<char>::empty());
    assert(first_line(text) == body);
    assert(after_first_line(text) == Seq::<char>::empty());
    assert(split_lines(after_first_line(text)) =~= Seq::<Seq<char>>::empty());
    assert(split_lines(text) =~= seq![body]);
}

/// The record of an entry whose label can stand in a line is read as that
/// entry, and is not blank.
pub proof fn lemma_parse_record_text(entry: (Seq<char>, u128))
    requires
        plain_label(entry.0),
    ensures
        parse_record(record_text(entry)) == Ok::<(Seq<char>, u128), Reason>(entry),
        !is_blank(record_text(entry)),
        forall|i: int| 0 <= i < record_text(entry).len() ==> record_text(entry)[i] != '\n',
        record_text(entry).last() != '\r',
        record_text(entry).len() > 0,
{
    let label = entry.0;
    let digits = decimal(entry.1 as nat);
    let line = record_text(entry);
    lemma_decimal_is_digits(entry.1 as nat);
    lemma_timestamp_of_decimal(entry.1);
    assert forall|i: int| 0 <= i < line.len() implies line[i] != '\n' by {
        if i < label.len() {
            assert(line[i] == label[i]);
        } else if i > label.len() {
            assert(line[i] == digits[i - label.len() - 1]);
            assert(is_digit(digits[i - label.len() - 1]));
        }
    }
    assert(line.last() == digits.last());
    assert(is_digit(digits[digits.len() - 1]));
    assert forall|j: int| 0 <= j < label.len() implies line[j] != ',' by {
        assert(line[j] == label[j]);
    }
    assert(line[label.len() as int] == ',');
    lemma_first_index_is(line, ',', label.len() as int);
    let rest = line.skip(label.len() as int + 1);
    assert(rest =~= digits);
    assert forall|j: int| 0 <= j < digits.len() implies digits[j] != ',' by {
        assert(is_digit(digits[j]));
    }
    lemma_first_index_is(digits, ',', digits.len() as int);
    assert(digits.take(digits.len() as int) =~= digits);
    assert(line.take(label.len() as int) =~= label);
    assert(!is_white_space(line[label.len() as int]));
}

/// The lines of the text of `es` are the records of its entries, one each.
pub proof fn lemma_lines_of_encode(es: Entries)
    requires
        writable(es),
    ensures
        split_lines(encode(es)) == Seq::new(es.len(), |i: int| record_text(es[i])),
        encode(es).len() == 0 || encode(es).last() == '\n',
    decreases es.len(),
{
    let records = Seq::new(es.len(), |i: int| record_text(es[i]));
    if es.len() == 0 {
        assert(split_lines(encode(es)) =~= records);
    } else {
        let front = es.drop_last();
        let last = es.last();
        lemma_lines_of_encode(front);
        lemma_parse_record_text(last);
        lemma_split_one_line(record_text(last));
        lemma_split_lines_concat(encode(front), record_line(last));
        assert(split_lines(encode(es)) =~= records);
    }
}

/// Reading the records of `es` from record `k` on, with the first `k`
/// entries already read, gives `es`.
pub proof fn lemma_decode_records(es: Entries, k: nat)
    requires
        distinct_labels(es),
        writable(es),
        k <= es.len(),
    ensures
        decode_from(Seq::new(es.len(), |i: int| record_text(es[i])), k, es.take(k as int)) == Ok::<
            Entries,
            MalformedRecord,
        >(es),
    decreases es.len() - k,
{
    let records = Seq::new(es.len(), |i: int| record_text(es[i]));
    if k >= es.len() {
        assert(es.take(k as int) =~= es);
    } else {
        let entry = es[k as int];
        let read = es.take(k as int);
        lemma_parse_record_text(entry);
        assert(records[k as int] == record_text(entry));
        assert(!has_label(read, entry.0)) by {
            if has_label(read, entry.0) {
                let i = choose|i: int| 0 <= i < read.len() && (#[trigger] read[i]).0 == entry.0;
                assert(es[i].0 == es[k as int].0);
            }
        }
        assert(upsert(read, entry.0, entry.1) =~= es.take(k as int + 1));
        lemma_decode_records(es, k + 1);
    }
}

/// Writing entries and reading the text back gives the same entries, each
/// label with its timestamp and in the same order, provided that no label
/// occurs twice and that no label holds a comma or a line feed.
pub proof fn lemma_decode_encode(es: Entries)
    requires
        distinct_labels(es),
        writable(es),
    ensures
        decode(encode(es)) == Ok::<Entries, MalformedRecord>(es),
{
    lemma_lines_of_encode(es);
    lemma_decode_records(es, 0);
    assert(es.take(0) =~= Seq::<(Seq<char>, u128)>::empty());
}

/// No blank line is written: where every label can stand in a line, each
/// line of the text of `es` is a record.
pub proof fn lemma_no_blank_line_written(es: Entries)
    requires
        writable(es),
    ensures
        split_lines(encode(es)).len() == es.len(),
        forall|k: int|
            0 <= k < es.len() ==> !is_blank(#[trigger] split_lines(encode(es))[k]),
{
    lemma_lines_of_encode(es);
    assert forall|k: int| 0 <= k < es.len() implies !is_blank(
        #[trigger] split_lines(encode(es))[k],
    ) by {
        lemma_parse_record_text(es[k]);
    }
}

/// Reading keeps labels distinct: from line `k` on, entries without a
/// repeated label are read into entries without a repeated label.
pub proof fn lemma_decode_from_distinct(lines: Seq<Seq<char>>, k: nat, acc: Entries)
    requires
        distinct_labels(acc),
    ensures
        decode_from(lines, k, acc) matches Ok(es) ==> distinct_labels(es),
    decreases lines.len() - k,
{
    if k >= lines.len() {
    } else if is_blank(lines[k as int]) {
        lemma_decode_from_distinct(lines, k + 1, acc);
    } else {
        match parse_record(lines[k as int]) {
            Ok((label, timestamp)) => {
                lemma_upsert_keeps_distinct(acc, label, timestamp);
                lemma_decode_from_distinct(lines, k + 1, upsert(acc, label, timestamp));
            },
            Err(_) => {},
        }
    }
}

/// In the entries that a text stands for, no label occurs twice.
pub proof fn lemma_decode_distinct(text: Seq<char>)
    ensures
        decode(text) matches Ok(es) ==> distinct_labels(es),
{
    lemma_decode_from_distinct(split_lines(text), 0, Seq::empty());
}

/// Whether `c` is white space.
pub fn is_white_space_char(c: char) -> (b: bool)
    ensures
        b == is_white_space(c),
{
    let u: u32 = c as u32;
    (0x09 <= u && u <= 0x0D) || u == 0x20 || u == 0x85 || u == 0xA0 || u == 0x1680 || (0x2000 <= u
        && u <= 0x200A) || u == 0x2028 || u == 0x2029 || u == 0x202F || u == 0x205F || u == 0x3000
}

/// Whether a line is blank.
pub fn is_blank_line(line: &[char]) -> (b: bool)
    ensures
        b == is_blank(line@),
{
    let n = line.len();
    let mut i: usize = 0;
    while i < n
        invariant
            i <= n,
            n == line@.len(),
            forall|j: int| 0 <= j < i ==> is_white_space(#[trigger] line@[j]),
        decreases n - i,
    {
        if !is_white_space_char(line[i]) {
            return false;
        }
        i = i + 1;
    }
    true
}

/// The index of the first `c` in `s`, or the length of `s`.
pub fn find_char(s: &[char], c: char) -> (k: usize)
    ensures
        k == first_index(s@, c),
        k <= s@.len(),
{
    let n = s.len();
    let mut i: usize = 0;
    while i < n
        invariant
            i <= n,
            n == s@.len(),
            forall|j: int| 0 <= j < i ==> s@[j] != c,
        decreases n - i,
    {
        if s[i] == c {
            proof {
                lemma_first_index_is(s@, c, i as int);
            }
            return i;
        }
        i = i + 1;
    }
    proof {
        lemma_first_index_is(s@, c, n as int);
    }
    n
}

/// The characters of a text, one by one.
pub fn chars_of(text: &str) -> (chars: Vec<char>)
    ensures
        chars@ == text@,
{
    broadcast use vstd::string::group_string_axioms;

    let mut chars: Vec<char> = Vec::new();
    for c in it: text.chars()
        invariant
            it.seq() == text@,
            chars@ == it.seq().take(it.index() as int),
    {
        chars.push(c);
    }
    chars
}

/// Reads the text form of a store.
///
/// Every line that is not blank must hold a label, a comma and a timestamp;
/// more fields may follow and are not looked at. Of two lines with one label
/// the later one counts. The first line that is no record is reported with
/// its number, counted from 1 over all lines, blank ones included.
pub fn parse_contents_into_map(content: &str) -> (result: Result<Store, MalformedRecord>)
    ensures
        match result {
            Ok(store) => decode(content@) == Ok::<Entries, MalformedRecord>(store.entries()),
            Err(error) => decode(content@) == Err::<Entries, MalformedRecord>(error),
        },
{
    let chars = chars_of(content);
    let text = chars.as_slice();
    let n = text.len();
    let ghost lines = split_lines(content@);
    let mut store = Store::new();
    let mut start: usize = 0;
    let mut line_no: usize = 0;
    assert(content@.skip(0) =~= content@);
    assert(lines.skip(0) =~= lines);
    while start < n
        invariant
            text@ == content@,
            n == text@.len(),
            start <= n,
            line_no <= start,
            lines == split_lines(content@),
            line_no <= lines.len(),
            split_lines(content@.skip(start as int)) == lines.skip(line_no as int),
            decode(content@) == decode_from(lines, line_no as nat, store.entries()),
        decreases n - start,
    {
        let ghost rest = content@.skip(start as int);
        let tail = slice_subrange(text, start, n);
        assert(tail@ =~= rest);
        let nl = find_char(tail, '\n');
        let len: usize = if nl < n - start && nl > 0 && tail[nl - 1] == '\r' {
            nl - 1
        } else {
            nl
        };
        let next: usize = if nl < n - start {
            start + nl + 1
        } else {
            n
        };
        let line = slice_subrange(tail, 0, len);
        proof {
            assert(line@ =~= first_line(rest));
            assert(content@.skip(next as int) =~= after_first_line(rest));
            assert(split_lines(rest) == seq![first_line(rest)] + split_lines(
                after_first_line(rest),
            ));
            assert(lines.skip(line_no as int).len() >= 1);
            assert(lines.skip(line_no as int)[0] == first_line(rest));
            assert(lines[line_no as int] == line@);
            assert(lines.skip(line_no + 1) =~= lines.skip(line_no as int).skip(1));
            assert(lines.skip(line_no as int).skip(1) =~= split_lines(after_first_line(rest)));
        }
        if !is_blank_line(line) {
            let comma = find_char(line, ',');
            if comma == line.len() {
                return Err(
                    MalformedRecord { line: line_no + 1, reason: Reason::InsufficientValues },
                );
            }
            let fields = slice_subrange(line, comma + 1, line.len());
            let field = slice_subrange(fields, 0, find_char(fields, ','));
            match parse_timestamp(field) {
                Some(timestamp) => {
                    let label = content.substring_char(start, start + comma);
                    assert(label@ =~= line@.take(comma as int));
                    store.record(label, timestamp);
                },
                None => {
                    return Err(MalformedRecord { line: line_no + 1, reason: Reason::InvalidValue });
                },
            }
        }
        start = next;
        line_no = line_no + 1;
    }
    assert(content@.skip(n as int) =~= Seq::<char>::empty());
    Ok(store)
}

/// Writes the text form of a store: one line per entry, `label,timestamp`
/// with a line feed after it, in the order of the store's entries. No blank
/// line is written.
///
/// Where no label of the store holds a comma or a line feed, reading the
/// text gives the same entries back.
pub fn get_hashmap_as_string(store: &Store) -> (text: String)
    ensures
        text@ == encode(store.entries()),
        writable(store.entries()) ==> decode(text@) == Ok::<Entries, MalformedRecord>(
            store.entries(),
        ),
{
    let entries = store.as_slice();
    let n = entries.len();
    let ghost es = store.entries();
    let mut text = String::new();
    let mut i: usize = 0;
    while i < n
        invariant
            i <= n,
            n == entries@.len(),
            es == store.entries(),
            es.len() == n,
            distinct_labels(es),
            forall|j: int| 0 <= j < n ==> (#[trigger] entries@[j])@ == es[j],
            text@ == encode(es.take(i as int)),
        decreases n - i,
    {
        let ghost before = text@;
        text.append(entries[i].label.as_str());
        text.append(",");
        append_decimal(&mut text, entries[i].timestamp);
        text.append("\n");
        proof {
            reveal_strlit(",");
            reveal_strlit("\n");
            assert(es.take(i + 1).drop_last() =~= es.take(i as int));
            assert(es.take(i + 1).last() == es[i as int]);
            assert(text@ =~= before + record_line(es[i as int]));
        }
        i = i + 1;
    }
    proof {
        assert(es.take(n as int) =~= es);
        if writable(es) {
            lemma_decode_encode(es);
        }
    }
    text
}

} // verus!
