//! What holds of the key file across operations: reading and writing undo
//! each other, lookups see what `insert` stored, `remove_nth_mapping` takes
//! out exactly one mapping, and reading goes line for line; and what the
//! signing, listing and device decisions come to.
use vstd::prelude::*;

use crate::config::{
    find_sep, first_mapping, lemma_find_sep, lemma_first_mapping_from,
    lemma_first_mapping_is, lookup, mapping_count, mapping_pairs, mapping_pairs_from, maps_serial,
    nth_mapping, nth_mapping_from, parse_line, parse_lines, parse_text, render, render_line,
    separator, upsert, EntryView,
};
use crate::device::{kept_hid_devices, names_yubikey, FidoDevice};
use crate::listing::{label_text, status_text};
use crate::signing::{first_configured_key, listing_holds_key};
use crate::text::{
    contains, find_from, is_char, is_ws, lemma_find_first, lemma_find_from, lemma_trim_end_len,
    lemma_trim_start_len, lemma_trimmed, lines, strip_cr, trim, trim_end, trim_start,
    unicode_lowercase, words,
};

verus! {

// ----------------------------------------------------------------------------
// Which texts and entries round-trip
// ----------------------------------------------------------------------------

/// A line that reads back as itself: an empty line; a comment line that does
/// not end in a carriage return; or a mapping line with no whitespace at its
/// ends nor around its first `::`.
pub open spec fn canonical_line(l: Seq<char>) -> bool {
    ||| l.len() == 0
    ||| trim(l).len() > 0 && trim(l)[0] == '#' && l.last() != '\r'
    ||| {
        let p = find_sep(l, 0);
        &&& trim(l) == l
        &&& l.len() > 0
        &&& l[0] != '#'
        &&& p < l.len()
        &&& trim(l.take(p)) == l.take(p)
        &&& trim(l.skip(p + 2)) == l.skip(p + 2)
    }
}

/// A text made of canonical lines, each ended by a line feed.
pub open spec fn canonical_text(s: Seq<char>) -> bool
    decreases s.len(),
{
    if s.len() == 0 {
        true
    } else {
        let j = find_from(s, is_char('\n'), 0);
        proof {
            lemma_find_from(s, is_char('\n'), 0);
        }
        j < s.len() && canonical_line(s.take(j)) && canonical_text(s.skip(j + 1))
    }
}

/// An entry that is written as a line that reads back as the same entry: a
/// comment of one line, starting (after blanks) with `#`, not ending in a
/// carriage return; any blank line; a mapping whose serial and key are one
/// line each with no whitespace at their ends, whose serial does not start
/// with `#`, does not hold `::` and does not end with `:`.
pub open spec fn writable_entry(e: EntryView) -> bool {
    match e {
        EntryView::Comment(t) => {
            &&& !t.contains('\n')
            &&& !(t.len() > 0 && t.last() == '\r')
            &&& trim(t).len() > 0
            &&& trim(t)[0] == '#'
        },
        EntryView::Blank => true,
        EntryView::Mapping { serial, key } => {
            &&& !serial.contains('\n')
            &&& !key.contains('\n')
            &&& trim(serial) == serial
            &&& trim(key) == key
            &&& !(serial.len() > 0 && (serial[0] == '#' || serial.last() == ':'))
            &&& !contains(serial, separator())
        },
    }
}

// ----------------------------------------------------------------------------
// Line lemmas
// ----------------------------------------------------------------------------

/// A canonical line loses nothing to line splitting and reads back as itself.
proof fn lemma_canonical_line(l: Seq<char>)
    requires
        canonical_line(l),
    ensures
        strip_cr(l) == l,
        parse_line(l) matches Some(e) && render_line(e) == l,
{
    lemma_trimmed(l);
    if l.len() == 0 {
        assert(trim(l) =~= l) by {
            lemma_trimmed(l);
        }
    } else if trim(l).len() > 0 && trim(l)[0] == '#' && l.last() != '\r' {
    } else {
        let p = find_sep(l, 0);
        lemma_find_sep(l, 0);
        assert(is_ws('\r'));
        assert(l.take(p) + separator() + l.skip(p + 2) =~= l);
    }
}

/// In `s + "::" + k`, with `s` free of `::` and not ending in `:`, the first
/// `::` at or after `i <= s.len()` is the one after `s`.
proof fn lemma_sep_after(s: Seq<char>, k: Seq<char>, i: int)
    requires
        0 <= i <= s.len(),
        !contains(s, separator()),
        !(s.len() > 0 && s.last() == ':'),
    ensures
        find_sep(s + separator() + k, i) == s.len(),
    decreases s.len() - i,
{
    let line = s + separator() + k;
    if i < s.len() {
        if i + 1 < s.len() {
            if s[i] == ':' && s[i + 1] == ':' {
                assert(s.subrange(i, i + 2) =~= separator());
            }
            assert(line[i] == s[i] && line[i + 1] == s[i + 1]);
        } else {
            assert(line[i] == s.last());
        }
        lemma_sep_after(s, k, i + 1);
    } else {
        assert(line[i] == ':' && line[i + 1] == ':');
    }
}

/// A writable entry's line has no line feed, loses nothing to line
/// splitting, and reads back as the entry.
proof fn lemma_writable_entry(e: EntryView)
    requires
        writable_entry(e),
    ensures
        !render_line(e).contains('\n'),
        strip_cr(render_line(e)) == render_line(e),
        parse_line(render_line(e)) == Some(e),
{
    assert(is_ws('\r'));
    match e {
        EntryView::Comment(t) => {},
        EntryView::Blank => {
            lemma_trimmed(Seq::<char>::empty());
        },
        EntryView::Mapping { serial, key } => {
            let line = serial + separator() + key;
            lemma_trimmed(serial);
            lemma_trimmed(key);
            assert forall|i: int| 0 <= i < line.len() implies line[i] != '\n' by {
                if i < serial.len() {
                    assert(line[i] == serial[i]);
                } else if i >= serial.len() + 2 {
                    assert(line[i] == key[i - serial.len() - 2]);
                }
            }
            assert(line[0] == (if serial.len() > 0 {
                serial[0]
            } else {
                ':'
            }));
            assert(line.last() == (if key.len() > 0 {
                key.last()
            } else {
                ':'
            }));
            lemma_trimmed(line);
            lemma_sep_after(serial, key, 0);
            assert(line.take(serial.len() as int) =~= serial);
            assert(line.skip(serial.len() as int + 2) =~= key);
        },
    }
}

// ----------------------------------------------------------------------------
// Laws
// ----------------------------------------------------------------------------

/// Writing entries out and reading the text back gives the same entries,
/// whenever every entry is writable.
pub proof fn law_write_then_read(es: Seq<EntryView>)
    requires
        forall|i: int| 0 <= i < es.len() ==> writable_entry(#[trigger] es[i]),
    ensures
        parse_text(render(es)) == Ok::<Seq<EntryView>, nat>(es),
    decreases es.len(),
{
    if es.len() == 0 {
        assert(render(es) =~= Seq::<char>::empty());
        assert(lines(render(es)) =~= Seq::<Seq<char>>::empty());
        assert(es =~= Seq::<EntryView>::empty());
    } else {
        let e = es[0];
        let r0 = render_line(e);
        let rest = es.drop_first();
        assert forall|i: int| 0 <= i < rest.len() implies writable_entry(#[trigger] rest[i]) by {
            assert(rest[i] == es[i + 1]);
        }
        law_write_then_read(rest);
        lemma_writable_entry(e);
        let x = render(es);
        assert(x == r0 + seq!['\n'] + render(rest));
        lemma_find_first(r0, '\n', render(rest), 0);
        assert(x.take(r0.len() as int) =~= r0);
        assert(x.skip(r0.len() as int + 1) =~= render(rest));
        assert(lines(x) == seq![r0] + lines(render(rest)));
        assert((seq![r0] + lines(render(rest))).drop_first() =~= lines(render(rest)));
        assert(seq![e] + rest =~= es);
        assert((seq![r0] + lines(render(rest)))[0] == r0);
        assert(parse_lines(seq![r0] + lines(render(rest))) == Ok::<Seq<EntryView>, nat>(seq![e] + rest));
    }
}

/// A canonical text reads as entries that are written back as the very same
/// text.
pub proof fn law_read_then_write(content: Seq<char>)
    requires
        canonical_text(content),
    ensures
        parse_text(content) matches Ok(es) && render(es) == content,
    decreases content.len(),
{
    if content.len() == 0 {
        assert(render(Seq::<EntryView>::empty()) =~= content);
    } else {
        let j = find_from(content, is_char('\n'), 0);
        lemma_find_from(content, is_char('\n'), 0);
        let l = content.take(j);
        let rest = content.skip(j + 1);
        law_read_then_write(rest);
        lemma_canonical_line(l);
        let e = parse_line(l)->0;
        let es2 = parse_text(rest)->Ok_0;
        assert(lines(content) == seq![l] + lines(rest));
        assert((seq![l] + lines(rest)).drop_first() =~= lines(rest));
        assert(parse_text(content) == Ok::<Seq<EntryView>, nat>(seq![e] + es2));
        let es = seq![e] + es2;
        assert(es.drop_first() =~= es2);
        assert(render(es) == l + seq!['\n'] + rest);
        assert(l + seq!['\n'] + rest =~= content);
    }
}

/// Reading goes line for line: a text that reads has one entry per line, each
/// the reading of its own line, so no line is merged, dropped or reordered
/// (duplicate serials included); a text that does not read is refused at its
/// first unreadable line.
pub proof fn law_read_line_by_line(content: Seq<char>)
    ensures
        parse_text(content) matches Ok(es) ==> es.len() == lines(content).len() && forall|i: int|
            0 <= i < es.len() ==> parse_line(#[trigger] lines(content)[i]) == Some(es[i]),
        parse_text(content) matches Err(n) ==> 1 <= n <= lines(content).len() && parse_line(
            lines(content)[n - 1],
        ) is None && forall|i: int|
            0 <= i < n - 1 ==> parse_line(#[trigger] lines(content)[i]) is Some,
{
    lemma_parse_lines(lines(content));
}

/// `parse_lines` goes line for line.
proof fn lemma_parse_lines(ls: Seq<Seq<char>>)
    ensures
        parse_lines(ls) matches Ok(es) ==> es.len() == ls.len() && forall|i: int|
            0 <= i < es.len() ==> parse_line(#[trigger] ls[i]) == Some(es[i]),
        parse_lines(ls) matches Err(n) ==> 1 <= n <= ls.len() && parse_line(ls[n - 1]) is None
            && forall|i: int| 0 <= i < n - 1 ==> parse_line(#[trigger] ls[i]) is Some,
    decreases ls.len(),
{
    if ls.len() > 0 {
        let rest = ls.drop_first();
        lemma_parse_lines(rest);
        if parse_line(ls[0]) is Some {
            match parse_lines(rest) {
                Ok(es) => {
                    let all = seq![parse_line(ls[0])->0] + es;
                    assert forall|i: int| 0 <= i < all.len() implies parse_line(#[trigger] ls[i])
                        == Some(all[i]) by {
                        if i > 0 {
                            assert(ls[i] == rest[i - 1]);
                        }
                    }
                },
                Err(n) => {
                    assert(ls[n as int] == rest[n - 1]);
                    assert forall|i: int| 0 <= i < n implies parse_line(#[trigger] ls[i]) is Some by {
                        if i > 0 {
                            assert(ls[i] == rest[i - 1]);
                        }
                    }
                },
            }
        }
    }
}

/// After `insert(serial, key)` a lookup of `serial` finds `key`, and a lookup
/// of any other serial finds what it found before.
pub proof fn law_lookup_after_insert(
    es: Seq<EntryView>,
    serial: Seq<char>,
    key: Seq<char>,
    other: Seq<char>,
)
    ensures
        lookup(upsert(es, serial, key), serial) == Some(key),
        other != serial ==> lookup(upsert(es, serial, key), other) == lookup(es, other),
{
    let new = EntryView::Mapping { serial, key };
    let es2 = upsert(es, serial, key);
    lemma_first_mapping_from(es, serial, 0);
    lemma_first_mapping_from(es, other, 0);
    match first_mapping(es, serial) {
        Some(i) => {
            assert forall|k: int| 0 <= k < i implies !maps_serial(#[trigger] es2[k], serial) by {
                assert(es2[k] == es[k]);
            }
            lemma_first_mapping_is(es2, serial, 0, Some(i));
            if other != serial {
                assert(!maps_serial(es[i], other));
                assert forall|k: int| 0 <= k < es.len() implies maps_serial(#[trigger] es2[k], other)
                    == maps_serial(es[k], other) by {
                    if k != i {
                        assert(es2[k] == es[k]);
                    }
                }
                lemma_first_mapping_is(es2, other, 0, first_mapping(es, other));
            }
        },
        None => {
            assert forall|k: int| 0 <= k < es.len() implies !maps_serial(#[trigger] es2[k], serial) by {
                assert(es2[k] == es[k]);
            }
            lemma_first_mapping_is(es2, serial, 0, Some(es.len() as int));
            if other != serial {
                assert forall|k: int| 0 <= k < es.len() implies maps_serial(#[trigger] es2[k], other)
                    == maps_serial(es[k], other) by {
                    assert(es2[k] == es[k]);
                }
                assert(!maps_serial(es2[es.len() as int], other));
                match first_mapping(es, other) {
                    Some(j) => lemma_first_mapping_is(es2, other, 0, Some(j)),
                    None => lemma_first_mapping_is(es2, other, 0, None),
                }
            }
        },
    }
}

/// Removing entry `p` at or after `i` shifts the mappings after it down by one.
proof fn lemma_pairs_after_remove(es: Seq<EntryView>, p: int, i: int)
    requires
        0 <= p < es.len(),
        p <= i <= es.len() - 1,
    ensures
        mapping_pairs_from(es.remove(p), i) == mapping_pairs_from(es, i + 1),
    decreases es.len() - i,
{
    if i < es.len() - 1 {
        assert(es.remove(p)[i] == es[i + 1]);
        lemma_pairs_after_remove(es, p, i + 1);
    }
}

/// Removing the `n`th mapping (counted from index `i`) removes the `n`th pair.
proof fn lemma_remove_nth_from(es: Seq<EntryView>, n: int, i: int)
    requires
        0 <= n,
        0 <= i <= es.len(),
    ensures
        nth_mapping_from(es, n, i) is Some <==> n < mapping_pairs_from(es, i).len(),
        nth_mapping_from(es, n, i) matches Some(p) ==> i <= p < es.len() && mapping_pairs_from(
            es.remove(p),
            i,
        ) == mapping_pairs_from(es, i).remove(n),
    decreases es.len() - i,
{
    if i < es.len() {
        if es[i] is Mapping {
            if n == 0 {
                lemma_pairs_after_remove(es, i, i);
                assert(mapping_pairs_from(es, i + 1) =~= mapping_pairs_from(es, i).remove(0));
            } else {
                lemma_remove_nth_from(es, n - 1, i + 1);
                if let Some(p) = nth_mapping_from(es, n, i) {
                    assert(es.remove(p)[i] == es[i]);
                    assert(mapping_pairs_from(es, i + 1).remove(n - 1) =~= mapping_pairs_from(
                        es,
                        i,
                    ).drop_first().remove(n - 1));
                    assert(seq![(es[i]->serial, es[i]->key)] + mapping_pairs_from(es, i).drop_first().remove(
                        n - 1,
                    ) =~= mapping_pairs_from(es, i).remove(n));
                }
            }
        } else {
            lemma_remove_nth_from(es, n, i + 1);
            if let Some(p) = nth_mapping_from(es, n, i) {
                assert(es.remove(p)[i] == es[i]);
            }
        }
    }
}

/// `remove_nth_mapping(n)` succeeds exactly when there are more than `n`
/// mappings, and then the mappings left are all the others, in order.
pub proof fn law_remove_nth_mapping(es: Seq<EntryView>, n: int)
    requires
        0 <= n,
    ensures
        nth_mapping(es, n) is Some <==> n < mapping_count(es),
        nth_mapping(es, n) matches Some(p) ==> mapping_pairs(es.remove(p)) == mapping_pairs(
            es,
        ).remove(n) && mapping_count(es.remove(p)) + 1 == mapping_count(es),
{
    lemma_remove_nth_from(es, n, 0);
}

/// Counting from index `i`, there are no pairs exactly when no entry is a
/// mapping.
proof fn lemma_no_pairs_from(es: Seq<EntryView>, i: int)
    requires
        0 <= i <= es.len(),
    ensures
        mapping_pairs_from(es, i).len() == 0 <==> forall|k: int|
            i <= k < es.len() ==> !(#[trigger] es[k] is Mapping),
    decreases es.len() - i,
{
    if i < es.len() {
        lemma_no_pairs_from(es, i + 1);
    }
}

/// A configuration has no mappings, in the sense of `has_no_mappings`,
/// exactly when `mappings` lists none.
pub proof fn law_no_mappings(es: Seq<EntryView>)
    ensures
        (forall|k: int| 0 <= k < es.len() ==> !(#[trigger] es[k] is Mapping)) <==> mapping_count(es)
            == 0,
{
    lemma_no_pairs_from(es, 0);
}

/// A text with at most one blank before and after a core whose ends are not
/// whitespace trims to that core.
proof fn lemma_trim_padded(pre: Seq<char>, core: Seq<char>, post: Seq<char>)
    requires
        pre == Seq::<char>::empty() || pre == seq![' '],
        post == Seq::<char>::empty() || post == seq![' '],
        core.len() > 0,
        !is_ws(core[0]),
        !is_ws(core.last()),
    ensures
        trim(pre + core + post) == core,
{
    assert(is_ws(' '));
    let x = pre + core + post;
    let y = core + post;
    lemma_trim_start_len(y);
    assert(y[0] == core[0]);
    if pre.len() == 1 {
        assert(x.drop_first() =~= y);
        assert(trim_start(x) == trim_start(y));
    } else {
        assert(x =~= y);
    }
    lemma_trim_end_len(core);
    if post.len() == 1 {
        assert(y.drop_last() =~= core);
        assert(trim_end(y) == trim_end(core));
    } else {
        assert(y =~= core);
    }
}

/// Trimming `s` followed by a blank gives `s` back, when `s` is trimmed.
proof fn lemma_trim_push_blank(s: Seq<char>)
    requires
        trim(s) == s,
    ensures
        trim(s.push(' ')) == s,
{
    lemma_trimmed(s);
    assert(is_ws(' '));
    if s.len() > 0 {
        lemma_trim_padded(Seq::<char>::empty(), s, seq![' ']);
        assert(Seq::<char>::empty() + s + seq![' '] =~= s.push(' '));
    } else {
        let t = s.push(' ');
        assert(t.drop_first() =~= Seq::<char>::empty());
        assert(trim_start(Seq::<char>::empty()) =~= Seq::<char>::empty());
        assert(trim_end(Seq::<char>::empty()) =~= Seq::<char>::empty());
        assert(s =~= Seq::<char>::empty());
    }
}

/// Trimming a blank followed by `k` gives `k` back, when `k` is trimmed.
proof fn lemma_trim_blank_push_front(k: Seq<char>)
    requires
        trim(k) == k,
    ensures
        trim(seq![' '] + k) == k,
{
    lemma_trimmed(k);
    assert(is_ws(' '));
    if k.len() > 0 {
        lemma_trim_padded(seq![' '], k, Seq::<char>::empty());
        assert(seq![' '] + k + Seq::<char>::empty() =~= seq![' '] + k);
    } else {
        let t = seq![' '] + k;
        assert(t.drop_first() =~= Seq::<char>::empty());
        assert(trim_start(Seq::<char>::empty()) =~= Seq::<char>::empty());
        assert(trim_end(Seq::<char>::empty()) =~= Seq::<char>::empty());
        assert(k =~= Seq::<char>::empty());
    }
}

/// A listed mapping, `<serial> :: <key>`, pasted back into the key file reads
/// as the same mapping, for any serial and key that can be written as one.
pub proof fn law_listed_mapping_reads_back(serial: Seq<char>, key: Seq<char>)
    requires
        writable_entry(EntryView::Mapping { serial, key }),
    ensures
        parse_line(label_text(serial, key)) == Some(EntryView::Mapping { serial, key }),
{
    let line = label_text(serial, key);
    assert(is_ws(' '));
    lemma_trimmed(serial);
    lemma_trimmed(key);
    // Without a serial or a key, the line's blank at that end is trimmed off.
    let left: Seq<char> = if serial.len() > 0 {
        serial.push(' ')
    } else {
        Seq::<char>::empty()
    };
    let right: Seq<char> = if key.len() > 0 {
        seq![' '] + key
    } else {
        Seq::<char>::empty()
    };
    let pre: Seq<char> = if serial.len() > 0 {
        Seq::<char>::empty()
    } else {
        seq![' ']
    };
    let post: Seq<char> = if key.len() > 0 {
        Seq::<char>::empty()
    } else {
        seq![' ']
    };
    let core = left + separator() + right;
    reveal_strlit(" :: ");
    assert(" :: "@ =~= seq![' ', ':', ':', ' ']);
    assert(line =~= pre + core + post);
    assert(core[0] == (if serial.len() > 0 {
        serial[0]
    } else {
        ':'
    }));
    assert(core.last() == (if key.len() > 0 {
        key.last()
    } else {
        ':'
    }));
    lemma_trim_padded(pre, core, post);
    // The core's first `::` is the one after `<serial> `.
    assert(!contains(left, separator())) by {
        if contains(left, separator()) {
            let i = choose|i: int|
                0 <= i && i + separator().len() <= left.len() && #[trigger] left.subrange(
                    i,
                    i + separator().len(),
                ) == separator();
            assert(left.subrange(i, i + 2)[0] == left[i]);
            assert(left.subrange(i, i + 2)[1] == left[i + 1]);
            assert(left[i + 1] == serial[i + 1]);
            assert(serial.subrange(i, i + 2) =~= separator());
        }
    }
    lemma_sep_after(left, right, 0);
    assert(core.take(left.len() as int) =~= left);
    assert(core.skip(left.len() as int + 2) =~= right);
    lemma_trim_push_blank(serial);
    lemma_trim_blank_push_front(key);
    if serial.len() == 0 {
        assert(trim(Seq::<char>::empty()) =~= Seq::<char>::empty()) by {
            lemma_trimmed(Seq::<char>::empty());
        }
        assert(serial =~= Seq::<char>::empty());
    }
    if key.len() == 0 {
        lemma_trimmed(Seq::<char>::empty());
        assert(key =~= Seq::<char>::empty());
    }
}

/// Appending a mapping leaves the mappings from index `i` on followed by its
/// pair.
proof fn lemma_pairs_after_push(es: Seq<EntryView>, serial: Seq<char>, key: Seq<char>, i: int)
    requires
        0 <= i <= es.len(),
    ensures
        mapping_pairs_from(es.push(EntryView::Mapping { serial, key }), i) == mapping_pairs_from(
            es,
            i,
        ).push((serial, key)),
    decreases es.len() - i,
{
    let es2 = es.push(EntryView::Mapping { serial, key });
    if i < es.len() {
        assert(es2[i] == es[i]);
        lemma_pairs_after_push(es, serial, key, i + 1);
        assert(mapping_pairs_from(es, i).push((serial, key)) =~= match es[i] {
            EntryView::Mapping { serial: s, key: k } => seq![(s, k)] + mapping_pairs_from(
                es,
                i + 1,
            ).push((serial, key)),
            _ => mapping_pairs_from(es, i + 1).push((serial, key)),
        });
    } else {
        assert(mapping_pairs_from(es2, i + 1) =~= Seq::<(Seq<char>, Seq<char>)>::empty());
        assert(mapping_pairs_from(es, i) =~= Seq::<(Seq<char>, Seq<char>)>::empty());
        assert(mapping_pairs_from(es2, i) =~= seq![(serial, key)]);
    }
}

/// Appending a mapping, as reading a key file does line by line, keeps every
/// mapping already there, one with the same serial included: the mappings
/// become the old ones followed by the new pair, and a lookup of a serial that
/// was already mapped still finds its first mapping.
pub proof fn law_append_keeps_duplicates(es: Seq<EntryView>, serial: Seq<char>, key: Seq<char>)
    ensures
        mapping_pairs(es.push(EntryView::Mapping { serial, key })) == mapping_pairs(es).push(
            (serial, key),
        ),
        mapping_count(es.push(EntryView::Mapping { serial, key })) == mapping_count(es) + 1,
        lookup(es, serial) is Some ==> lookup(es.push(EntryView::Mapping { serial, key }), serial)
            == lookup(es, serial),
{
    let es2 = es.push(EntryView::Mapping { serial, key });
    lemma_pairs_after_push(es, serial, key, 0);
    lemma_first_mapping_from(es, serial, 0);
    if let Some(i) = first_mapping(es, serial) {
        assert forall|k: int| 0 <= k < i implies !maps_serial(#[trigger] es2[k], serial) by {
            assert(es2[k] == es[k]);
        }
        assert(es2[i] == es[i]);
        lemma_first_mapping_is(es2, serial, 0, Some(i));
    }
}

// ----------------------------------------------------------------------------
// Signing, listing and devices
// ----------------------------------------------------------------------------

/// Whether a device's reported serial (if any) has a mapping.
pub open spec fn device_mapped(es: Seq<EntryView>, reported: Option<Seq<char>>) -> bool {
    match reported {
        Some(s) => lookup(es, s) is Some,
        None => false,
    }
}

/// The signing key is the key of the first connected device, in device order
/// and over all of them, whose serial is mapped; there is none exactly when
/// no connected device's serial is mapped.
pub proof fn law_signing_key_is_first_mapped_device(
    es: Seq<EntryView>,
    serials: Seq<Option<Seq<char>>>,
)
    ensures
        forall|i: int|
            0 <= i < serials.len() && #[trigger] device_mapped(es, serials[i]) && (forall|j: int|
                0 <= j < i ==> !device_mapped(es, serials[j])) ==> first_configured_key(
                es,
                serials,
            ) == lookup(es, serials[i]->0),
        (forall|i: int| 0 <= i < serials.len() ==> !#[trigger] device_mapped(es, serials[i]))
            ==> first_configured_key(es, serials) is None,
    decreases serials.len(),
{
    if serials.len() > 0 {
        let rest = serials.drop_first();
        law_signing_key_is_first_mapped_device(es, rest);
        assert forall|i: int|
            0 <= i < serials.len() && #[trigger] device_mapped(es, serials[i]) && (forall|j: int|
                0 <= j < i ==> !device_mapped(es, serials[j])) implies first_configured_key(
            es,
            serials,
        ) == lookup(es, serials[i]->0) by {
            if i > 0 {
                assert(!device_mapped(es, serials[0]));
                assert(rest[i - 1] == serials[i]);
                assert forall|j: int| 0 <= j < i - 1 implies !device_mapped(es, rest[j]) by {
                    assert(rest[j] == serials[j + 1]);
                }
                assert(device_mapped(es, rest[i - 1]));
            }
        }
        if forall|i: int| 0 <= i < serials.len() ==> !#[trigger] device_mapped(es, serials[i]) {
            assert(!device_mapped(es, serials[0]));
            assert forall|i: int| 0 <= i < rest.len() implies !#[trigger] device_mapped(es, rest[i]) by {
                assert(rest[i] == serials[i + 1]);
            }
        }
    }
}

/// The agent holds the key whenever some line of its listing contains the
/// key's first two words (type and blob) joined by one space, whatever the
/// other lines hold.
pub proof fn law_agent_match_is_any_line(listing: Seq<char>, key_content: Seq<char>, i: int)
    requires
        words(key_content).len() >= 2,
        0 <= i < lines(listing).len(),
        contains(lines(listing)[i], words(key_content)[0] + seq![' '] + words(key_content)[1]),
    ensures
        listing_holds_key(listing, key_content),
{
    assert(contains(lines(listing)[i], words(key_content)[0] + seq![' '] + words(key_content)[1]));
}

/// Whether the agent holds a key depends only on which lines its listing has:
/// a listing that has every line of another (in any order, with any lines
/// added) holds every key that the other holds.
pub proof fn law_agent_match_keeps_with_more_lines(l1: Seq<char>, l2: Seq<char>, key_content: Seq<char>)
    requires
        forall|i: int| 0 <= i < lines(l1).len() ==> lines(l2).contains(#[trigger] lines(l1)[i]),
    ensures
        listing_holds_key(l1, key_content) ==> listing_holds_key(l2, key_content),
{
    if listing_holds_key(l1, key_content) {
        let id = words(key_content)[0] + seq![' '] + words(key_content)[1];
        let i = choose|i: int| 0 <= i < lines(l1).len() && contains(#[trigger] lines(l1)[i], id);
        assert(lines(l2).contains(lines(l1)[i]));
        let j = choose|j: int| 0 <= j < lines(l2).len() && lines(l2)[j] == lines(l1)[i];
        assert(contains(lines(l2)[j], id));
    }
}

/// A listed line carries ` (key file missing)` exactly when the key file is
/// missing, whether or not the device is connected: the line with the file
/// missing is the line with it present followed by that note, and the line
/// with it present ends with `]`.
pub proof fn law_status_missing_note(serial: Seq<char>, key: Seq<char>, connected: bool)
    ensures
        status_text(serial, key, connected, false) == status_text(serial, key, connected, true)
            + " (key file missing)"@,
        status_text(serial, key, connected, true).last() == ']',
{
    reveal_strlit("]");
    let a = label_text(serial, key) + " ["@ + (if connected {
        "connected"@
    } else {
        "not connected"@
    }) + "]"@;
    assert(status_text(serial, key, connected, true) =~= a);
}

/// A listed line says `[not connected]` where it would say `[connected]`, and
/// nothing else differs: the two lines share everything up to ` [`, and the
/// one for an unplugged device has `not ` inserted there.
pub proof fn law_status_connection(serial: Seq<char>, key: Seq<char>, key_exists: bool)
    ensures
        ({
            let p = label_text(serial, key) + " ["@;
            let rest = status_text(serial, key, true, key_exists).skip(p.len() as int);
            &&& status_text(serial, key, true, key_exists) == p + rest
            &&& status_text(serial, key, false, key_exists) == p + "not "@ + rest
            &&& rest.take(10) == "connected]"@
        }),
{
    reveal_strlit("not connected");
    reveal_strlit("connected");
    reveal_strlit("not ");
    reveal_strlit("connected]");
    reveal_strlit("]");
    let p = label_text(serial, key) + " ["@;
    let tail: Seq<char> = if key_exists {
        Seq::<char>::empty()
    } else {
        " (key file missing)"@
    };
    let rest = "connected"@ + "]"@ + tail;
    assert(status_text(serial, key, true, key_exists) =~= p + rest);
    assert(status_text(serial, key, true, key_exists).skip(p.len() as int) =~= rest);
    assert("not connected"@ =~= "not "@ + "connected"@);
    assert(status_text(serial, key, false, key_exists) =~= p + "not "@ + rest);
    assert(rest.take(10) =~= "connected]"@);
}

/// A HID product string is taken for a YubiKey exactly when its lowercase
/// form contains `yubikey`, and for nothing else.
pub proof fn law_yubikey_product_is_by_word(product_string: Seq<char>)
    ensures
        names_yubikey(product_string) <==> contains(unicode_lowercase(product_string), "yubikey"@),
{
}

/// The device merge keeps exactly the HID devices whose product string, in
/// lowercase, does not contain `yubikey`: every such device given is kept,
/// and every device kept is one of those.
pub proof fn law_merge_keeps_non_yubikey_hid(s: Seq<FidoDevice>)
    ensures
        forall|d: FidoDevice|
            #[trigger] kept_hid_devices(s).contains(d) <==> (s.contains(d) && d is Generic
                && !contains(unicode_lowercase(d->product_string@), "yubikey"@)),
    decreases s.len(),
{
    if s.len() > 0 {
        let init = s.drop_last();
        let x = s.last();
        law_merge_keeps_non_yubikey_hid(init);
        assert(s =~= init.push(x));
        assert forall|d: FidoDevice| #[trigger] s.contains(d) <==> (init.contains(d) || d == x) by {
            if s.contains(d) {
                let i = choose|i: int| 0 <= i < s.len() && s[i] == d;
                if i < s.len() - 1 {
                    assert(init[i] == d);
                }
            }
            if init.contains(d) {
                let i = choose|i: int| 0 <= i < init.len() && init[i] == d;
                assert(s[i] == d);
            }
            if d == x {
                assert(s[s.len() - 1] == d);
            }
        }
        let k = kept_hid_devices(init);
        assert forall|d: FidoDevice| #[trigger] k.push(x).contains(d) <==> (k.contains(d) || d == x) by {
            if k.push(x).contains(d) {
                let i = choose|i: int| 0 <= i < k.push(x).len() && k.push(x)[i] == d;
                if i < k.len() {
                    assert(k[i] == d);
                }
            }
            if k.contains(d) {
                let i = choose|i: int| 0 <= i < k.len() && k[i] == d;
                assert(k.push(x)[i] == d);
            }
            if d == x {
                assert(k.push(x)[k.len() as int] == d);
            }
        }
    }
}

} // verus!
