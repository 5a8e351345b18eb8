//! What holds of every message.

use crate::engine::{decode_text, decode_tokens, lemma_run_wf, run, tags_of};
use crate::export::{export, export_entity, export_entries, insert_entry, json_of, key_index, Json};
use crate::leaves::{agrees, all_leaves, lemma_run_leaves, state_leaves};
use crate::message::FixMessage;
use crate::shape::{all_shaped, lemma_run_shaped};
use crate::text::{int_text, lemma_int_text_injective};
use crate::tokenizer::{
    all_tokens, chunk_tokens, dropped_tag, end_index, first_marker, has_end, lemma_end_index,
    law_first_marker_is_least, lemma_end_index_concat, lemma_up_to_end, marker_at, message_tokens, occurs_at, separator,
    tokens_from, up_to_end, DecodeError, END_TAG,
};
use crate::tree::{entity_tag, Entity};
use vstd::prelude::*;

verus! {

/// Exporting is a function of the tree: two exports of one message hold the
/// same JSON value.
pub proof fn law_export_twice(
    message: FixMessage,
    first: serde_json::Value,
    second: serde_json::Value,
)
    requires
        json_of(first) == export(message@),
        json_of(second) == export(message@),
    ensures
        json_of(first) == json_of(second),
{
}

/// Whatever follows the end-of-message tag is dropped: tokens put behind a
/// sequence that holds that tag change neither what is kept of it nor the
/// tree that it decodes to.
pub proof fn law_truncation(tokens: Seq<(i32, Seq<char>)>, more: Seq<(i32, Seq<char>)>)
    requires
        has_end(tokens),
    ensures
        up_to_end(tokens + more) == up_to_end(tokens),
        decode_tokens(up_to_end(tokens + more)) == decode_tokens(up_to_end(tokens)),
        forall|i: int|
            0 <= i < up_to_end(tokens + more).len() - 1 ==> (#[trigger] up_to_end(
                tokens + more,
            )[i]).0 != END_TAG,
{
    lemma_end_index(tokens);
    lemma_end_index(tokens + more);
    lemma_end_index_concat(tokens, more);
}

/// A text whose tokens lack the end-of-message tag decodes to no tree: the
/// decoding fails, with `IncompleteMessage` where the header was read.
pub proof fn law_missing_end_tag(input: Seq<char>)
    requires
        match message_tokens(input) {
            Some(tokens) => forall|i: int| 0 <= i < tokens.len() ==> (#[trigger] tokens[i]).0 != END_TAG,
            None => true,
        },
    ensures
        decode_text(input) is Err,
        message_tokens(input) is Some ==> decode_text(input) == Err::<Seq<Entity>, _>(
            DecodeError::IncompleteMessage,
        ),
{
    match message_tokens(input) {
        Some(tokens) => {
            lemma_end_index(tokens);
        },
        None => {},
    }
}

/// Whether no tag comes twice in `tokens`.
pub open spec fn distinct_tags(tokens: Seq<(i32, Seq<char>)>) -> bool {
    forall|i: int, j: int| 0 <= i < j < tokens.len() ==> tokens[i].0 != tokens[j].0
}

/// The tokens as fields, one for one.
pub open spec fn fields_of(tokens: Seq<(i32, Seq<char>)>) -> Seq<Entity> {
    tokens.map_values(|t: (i32, Seq<char>)| Entity::Field(t.0, t.1))
}

/// The tokens as entries of a JSON object, one for one.
pub open spec fn entries_of_tokens(tokens: Seq<(i32, Seq<char>)>) -> Seq<(Seq<char>, Json)> {
    tokens.map_values(|t: (i32, Seq<char>)| (int_text(t.0 as int), Json::Text(t.1)))
}

/// While no tag comes twice no group opens: the root holds the tokens read
/// so far as fields, and the candidates are tags that were read.
proof fn lemma_run_without_repetition(tokens: Seq<(i32, Seq<char>)>, n: nat)
    requires
        distinct_tags(tokens),
        n <= tokens.len(),
    ensures
        run(tokens, n).groups.len() == 0,
        run(tokens, n).trackers.len() == 1,
        run(tokens, n).root == fields_of(tokens).take(n as int),
        forall|t: i32|
            run(tokens, n).trackers[0].contains_key(t) ==> exists|i: int|
                0 <= i < n && (#[trigger] tokens[i]).0 == t,
    decreases n,
{
    if n > 0 {
        let before = run(tokens, (n - 1) as nat);
        lemma_run_without_repetition(tokens, (n - 1) as nat);
        let tags = tags_of(tokens);
        let tag = tags[n - 1];
        let value = tokens[n - 1].1;
        if before.candidates().contains_key(tag) {
            // then the tag was read before, and would come twice
        }
        let after = before.place(tag, value);
        assert forall|t: i32| after.trackers[0].contains_key(t) implies exists|i: int|
            0 <= i < n && (#[trigger] tokens[i]).0 == t by {
            if t == tag {
                // the tag of the token that was just read
            }
        }
    }
}

/// A key that no entry has stands at no index.
proof fn lemma_key_index_absent(entries: Seq<(Seq<char>, Json)>, key: Seq<char>)
    requires
        forall|i: int| 0 <= i < entries.len() ==> (#[trigger] entries[i]).0 != key,
    ensures
        key_index(entries, key) == entries.len(),
    decreases entries.len(),
{
    if entries.len() > 0 {
        let rest = entries.drop_first();
        lemma_key_index_absent(rest, key);
    }
}

/// Fields with different tags become entries in their order.
proof fn lemma_export_fields(tokens: Seq<(i32, Seq<char>)>, n: nat)
    requires
        distinct_tags(tokens),
        n <= tokens.len(),
    ensures
        export_entries(fields_of(tokens), n) == entries_of_tokens(tokens).take(n as int),
    decreases n,
{
    let fields = fields_of(tokens);
    let entries = entries_of_tokens(tokens);
    if n > 0 {
        lemma_export_fields(tokens, (n - 1) as nat);
        let before = entries.take(n - 1);
        let token = tokens[n - 1];
        assert(export_entity(fields[n - 1]) == (int_text(token.0 as int), Json::Text(token.1)));
        assert forall|i: int| 0 <= i < before.len() implies (#[trigger] before[i]).0 != int_text(
            token.0 as int,
        ) by {
            if int_text(tokens[i].0 as int) == int_text(token.0 as int) {
                lemma_int_text_injective(tokens[i].0 as int, token.0 as int);
            }
        }
        lemma_key_index_absent(before, int_text(token.0 as int));
    }
}

/// A message in which no tag comes twice has no repeating groups, and keeps
/// its order: its tree is its tokens as fields, and the exported object has
/// one entry for each token, in the order of the tokens, with the tag in
/// decimal as the key and the text as the value.
pub proof fn law_order_preserved(tokens: Seq<(i32, Seq<char>)>)
    requires
        distinct_tags(tokens),
    ensures
        decode_tokens(tokens) == fields_of(tokens),
        export(decode_tokens(tokens)) == Json::Object(entries_of_tokens(tokens)),
{
    lemma_run_without_repetition(tokens, tokens.len());
    lemma_export_fields(tokens, tokens.len());
    assert(entries_of_tokens(tokens).take(tokens.len() as int) =~= entries_of_tokens(tokens));
}

/// The end-of-message tag closes every group: when the last token of a
/// message carries it, no group is left open, so that all of the message is
/// in the tree under the root, and the last node of the root is the field of
/// that token.
pub proof fn law_all_groups_closed(tokens: Seq<(i32, Seq<char>)>)
    requires
        tokens.len() > 0,
        tokens.last().0 == END_TAG,
    ensures
        run(tokens, tokens.len()).groups.len() == 0,
        decode_tokens(tokens).len() > 0,
        decode_tokens(tokens).last() == Entity::Field(END_TAG, tokens.last().1),
{
    lemma_run_wf(tokens, tokens.len());
}

/// Nothing is lost, nothing is added and nothing changes its place: the
/// leaves of the tree of a message, read in order, are its tokens one for
/// one. A field keeps the tag and the text of its token; the count field of
/// a group keeps the tag, and the repetitions that the group declares are the
/// number that the text of the token writes.
pub proof fn law_nothing_lost(tokens: Seq<(i32, Seq<char>)>)
    requires
        tokens.len() > 0,
        tokens.last().0 == END_TAG,
    ensures
        agrees(all_leaves(decode_tokens(tokens)), tokens),
{
    lemma_run_leaves(tokens, tokens.len());
    lemma_run_wf(tokens, tokens.len());
}

/// Every group of a tree that decoding builds is well formed, whatever the
/// message declares: it has an instance, each of its instances begins with
/// the node known under its delimiter, it knows the tag of every node of its
/// instances, and the groups inside it are well formed too.
pub proof fn law_groups_well_formed(tokens: Seq<(i32, Seq<char>)>)
    ensures
        all_shaped(decode_tokens(tokens)),
{
    lemma_run_shaped(tokens, tokens.len());
}

/// The pieces put together with `sep` between them.
pub open spec fn join(pieces: Seq<Seq<char>>, sep: Seq<char>) -> Seq<char>
    decreases pieces.len(),
{
    if pieces.len() == 0 {
        Seq::empty()
    } else if pieces.len() == 1 {
        pieces[0]
    } else {
        pieces[0] + sep + join(pieces.drop_first(), sep)
    }
}

/// The tokens that the pieces hold, in order.
pub open spec fn pieces_tokens(pieces: Seq<Seq<char>>) -> Seq<(i32, Seq<char>)>
    decreases pieces.len(),
{
    if pieces.len() == 0 {
        Seq::empty()
    } else {
        chunk_tokens(pieces[0]) + pieces_tokens(pieces.drop_first())
    }
}

/// Scanning a text that ends with the pieces, joined by a character that
/// none of them holds, finds the tokens of the pieces.
proof fn lemma_scan_pieces(s: Seq<char>, c: char, start: int, i: int, pieces: Seq<Seq<char>>)
    requires
        pieces.len() >= 1,
        forall|k: int| 0 <= k < pieces.len() ==> !(#[trigger] pieces[k]).contains(c),
        0 <= start <= i <= start + pieces[0].len(),
        start <= s.len(),
        s.subrange(start, s.len() as int) == join(pieces, seq![c]),
    ensures
        tokens_from(s, seq![c], start, i) == pieces_tokens(pieces),
    decreases s.len() - i,
{
    let sep = seq![c];
    let first = pieces[0];
    let rest = pieces.drop_first();
    let tail = s.subrange(start, s.len() as int);
    if pieces.len() == 1 {
        assert(pieces_tokens(rest) =~= Seq::<(i32, Seq<char>)>::empty());
        if i + 1 <= s.len() {
            assert(first.contains(first[i - start]));
            assert(s.subrange(i, i + 1)[0] == s[i]);
            lemma_scan_pieces(s, c, start, i + 1, pieces);
        }
    } else {
        let joined = join(rest, sep);
        assert(tail.len() == first.len() + 1 + joined.len());
        if i < start + first.len() {
            assert(s[i] == tail[i - start]);
            assert(s.subrange(i, i + 1)[0] == s[i]);
            lemma_scan_pieces(s, c, start, i + 1, pieces);
        } else {
            assert(s[i] == tail[i - start]);
            assert(s.subrange(i, i + 1) =~= sep);
            assert(s.subrange(start, i) =~= first);
            assert forall|k: int| 0 <= k < joined.len() implies s.subrange(
                i + 1,
                s.len() as int,
            )[k] == joined[k] by {
                assert(s[i + 1 + k] == tail[i + 1 + k - start]);
            }
            assert(s.subrange(i + 1, s.len() as int) =~= joined);
            lemma_scan_pieces(s, c, i + 1, i + 1, rest);
        }
    }
}

/// The character that separates the fields does not matter: pieces joined by
/// one character or by another, of which they hold neither, give the same
/// tokens, those of the pieces in order.
pub proof fn law_separator_independence(pieces: Seq<Seq<char>>, a: char, b: char)
    requires
        pieces.len() >= 1,
        forall|k: int| 0 <= k < pieces.len() ==> !(#[trigger] pieces[k]).contains(a),
        forall|k: int| 0 <= k < pieces.len() ==> !(#[trigger] pieces[k]).contains(b),
    ensures
        all_tokens(join(pieces, seq![a]), seq![a]) == pieces_tokens(pieces),
        all_tokens(join(pieces, seq![b]), seq![b]) == pieces_tokens(pieces),
        decode_tokens(up_to_end(all_tokens(join(pieces, seq![a]), seq![a]))) == decode_tokens(
            up_to_end(all_tokens(join(pieces, seq![b]), seq![b])),
        ),
{
    let with_a = join(pieces, seq![a]);
    let with_b = join(pieces, seq![b]);
    assert(with_a.subrange(0, with_a.len() as int) =~= with_a);
    assert(with_b.subrange(0, with_b.len() as int) =~= with_b);
    lemma_scan_pieces(with_a, a, 0, 0, pieces);
    lemma_scan_pieces(with_b, b, 0, 0, pieces);
}

/// One message written with one separating character or with another
/// decodes alike: where the message begins the text, no piece holds either
/// character, and each character is found as the separator of its text, the
/// two texts decode to the same tree, or fail alike.
pub proof fn law_same_message_other_separator(pieces: Seq<Seq<char>>, a: char, b: char)
    requires
        pieces.len() >= 1,
        forall|k: int| 0 <= k < pieces.len() ==> !(#[trigger] pieces[k]).contains(a),
        forall|k: int| 0 <= k < pieces.len() ==> !(#[trigger] pieces[k]).contains(b),
        first_marker(join(pieces, seq![a]), 0) == 0,
        first_marker(join(pieces, seq![b]), 0) == 0,
        separator(join(pieces, seq![a])) == Some(seq![a]),
        separator(join(pieces, seq![b])) == Some(seq![b]),
    ensures
        decode_text(join(pieces, seq![a])) == decode_text(join(pieces, seq![b])),
        dropped_tag(join(pieces, seq![a])) == dropped_tag(join(pieces, seq![b])),
{
    let with_a = join(pieces, seq![a]);
    let with_b = join(pieces, seq![b]);
    law_separator_independence(pieces, a, b);
    assert(with_a.subrange(0, with_a.len() as int) =~= with_a);
    assert(with_b.subrange(0, with_b.len() as int) =~= with_b);
}

/// Whether no two nodes of `c` are known under the same tag.
pub open spec fn distinct_nodes(c: Seq<Entity>) -> bool {
    forall|i: int, j: int| 0 <= i < j < c.len() ==> entity_tag(c[i]) != entity_tag(c[j])
}

/// The first `n` nodes of a component in which no tag stands twice become
/// entries one for one.
proof fn lemma_export_in_order(c: Seq<Entity>, n: nat)
    requires
        distinct_nodes(c),
        n <= c.len(),
    ensures
        export_entries(c, n) == c.map_values(|e: Entity| export_entity(e)).take(n as int),
    decreases n,
{
    let entries = c.map_values(|e: Entity| export_entity(e));
    if n > 0 {
        lemma_export_in_order(c, (n - 1) as nat);
        let before = entries.take(n - 1);
        let entry = export_entity(c[n - 1]);
        assert forall|i: int| 0 <= i < before.len() implies (#[trigger] before[i]).0 != entry.0 by {
            if before[i].0 == entry.0 {
                lemma_int_text_injective(entity_tag(c[i]) as int, entity_tag(c[n - 1]) as int);
            }
        }
        lemma_key_index_absent(before, entry.0);
    }
}

/// The entries of an exported object keep the order of the tree: a component
/// in which no two nodes are known under the same tag becomes an object with
/// one entry for each node, in the order of the nodes.
pub proof fn law_export_in_order(c: Seq<Entity>)
    requires
        distinct_nodes(c),
    ensures
        export(c) == Json::Object(c.map_values(|e: Entity| export_entity(e))),
{
    lemma_export_in_order(c, c.len());
    let entries = c.map_values(|e: Entity| export_entity(e));
    assert(entries.take(c.len() as int) =~= entries);
}

/// Whether no key comes twice in `entries`.
pub open spec fn distinct_keys(entries: Seq<(Seq<char>, Json)>) -> bool {
    forall|i: int, j: int| 0 <= i < j < entries.len() ==> entries[i].0 != entries[j].0
}

/// Where a key stands: `key_index` gives an index that holds the key, or the
/// length where no entry holds it.
proof fn lemma_key_index(entries: Seq<(Seq<char>, Json)>, key: Seq<char>)
    ensures
        0 <= key_index(entries, key) <= entries.len(),
        key_index(entries, key) < entries.len() ==> entries[key_index(entries, key)].0 == key,
        key_index(entries, key) == entries.len() ==> forall|i: int|
            0 <= i < entries.len() ==> (#[trigger] entries[i]).0 != key,
    decreases entries.len(),
{
    if entries.len() > 0 && entries[0].0 != key {
        let rest = entries.drop_first();
        lemma_key_index(rest, key);
        if key_index(entries, key) == entries.len() {
            assert forall|i: int| 0 <= i < entries.len() implies (#[trigger] entries[i]).0
                != key by {
                if i > 0 {
                    assert(entries[i] == rest[i - 1]);
                }
            }
        }
    }
}

/// Setting a key keeps the keys different from one another.
proof fn lemma_insert_entry_distinct(entries: Seq<(Seq<char>, Json)>, key: Seq<char>, value: Json)
    requires
        distinct_keys(entries),
    ensures
        distinct_keys(insert_entry(entries, key, value)),
{
    lemma_key_index(entries, key);
}

/// The first `n` nodes of a component become entries with different keys.
proof fn lemma_export_entries_distinct(c: Seq<Entity>, n: nat)
    ensures
        distinct_keys(export_entries(c, n)),
    decreases n,
{
    if n > 0 && n <= c.len() {
        lemma_export_entries_distinct(c, (n - 1) as nat);
        let entry = export_entity(c[n - 1]);
        lemma_insert_entry_distinct(export_entries(c, (n - 1) as nat), entry.0, entry.1);
    }
}

/// No key comes twice in the object that a tree is exported as: where a tag
/// stands twice in a component without forming a group, the later value
/// takes the place of the earlier.
pub proof fn law_exported_keys_differ(root: Seq<Entity>)
    ensures
        export(root) is Object,
        distinct_keys(export(root)->Object_0),
{
    lemma_export_entries_distinct(root, root.len());
}

/// Whether no separator begins inside the end of `s` when a separator
/// follows it: the separator that follows is then found where `s` ends, and
/// not before. A separator of one character always is.
pub open spec fn ends_cleanly(s: Seq<char>, sep: Seq<char>) -> bool {
    forall|j: int| 0 <= j && s.len() - sep.len() < j < s.len() ==> !occurs_at(s + sep, sep, j)
}

/// The tokens of a text do not depend on what stands before it.
proof fn lemma_tokens_shifted(before: Seq<char>, t: Seq<char>, sep: Seq<char>, start: int, i: int)
    requires
        0 <= start <= i <= t.len(),
    ensures
        tokens_from(before + t, sep, before.len() + start, before.len() + i) == tokens_from(
            t,
            sep,
            start,
            i,
        ),
    decreases t.len() - i,
{
    let whole = before + t;
    let n = before.len() as int;
    let m = sep.len() as int;
    if m == 0 || i + m > t.len() {
        assert(whole.subrange(n + start, whole.len() as int) =~= t.subrange(start, t.len() as int));
    } else {
        assert(whole.subrange(n + i, n + i + m) =~= t.subrange(i, i + m));
        if occurs_at(t, sep, i) {
            assert(whole.subrange(n + start, n + i) =~= t.subrange(start, i));
            lemma_tokens_shifted(before, t, sep, i + m, i + m);
        } else {
            lemma_tokens_shifted(before, t, sep, start, i + 1);
        }
    }
}

/// The tokens of a text that ends cleanly, a separator and a second text are
/// the tokens of the first text, then those of the second.
proof fn lemma_tokens_appended(s: Seq<char>, sep: Seq<char>, t: Seq<char>, start: int, i: int)
    requires
        sep.len() > 0,
        0 <= start <= i <= s.len(),
        ends_cleanly(s, sep),
    ensures
        tokens_from(s + sep + t, sep, start, i) == tokens_from(s, sep, start, i) + all_tokens(
            t,
            sep,
        ),
    decreases s.len() - i,
{
    let whole = s + sep + t;
    let n = s.len() as int;
    let m = sep.len() as int;
    if i + m > n {
        assert(tokens_from(s, sep, start, i) == chunk_tokens(s.subrange(start, n)));
        if i == n {
            assert(whole.subrange(n, n + m) =~= sep);
            assert(whole.subrange(start, n) =~= s.subrange(start, n));
            lemma_tokens_shifted(s + sep, t, sep, 0, 0);
        } else {
            assert(whole.subrange(i, i + m) =~= (s + sep).subrange(i, i + m));
            assert(!occurs_at(s + sep, sep, i));
            lemma_tokens_appended(s, sep, t, start, i + 1);
            assert(tokens_from(s, sep, start, i + 1) == chunk_tokens(s.subrange(start, n)));
        }
    } else {
        assert(whole.subrange(i, i + m) =~= s.subrange(i, i + m));
        if occurs_at(s, sep, i) {
            assert(whole.subrange(start, i) =~= s.subrange(start, i));
            lemma_tokens_appended(s, sep, t, i + m, i + m);
            assert(chunk_tokens(s.subrange(start, i)) + (tokens_from(s, sep, i + m, i + m)
                + all_tokens(t, sep)) =~= chunk_tokens(s.subrange(start, i)) + tokens_from(
                s,
                sep,
                i + m,
                i + m,
            ) + all_tokens(t, sep));
        } else {
            lemma_tokens_appended(s, sep, t, start, i + 1);
        }
    }
}

/// Where a text holds `8=`, text put behind it does not move the first one.
proof fn lemma_first_marker_appended(a: Seq<char>, more: Seq<char>, from: int)
    requires
        0 <= from,
        first_marker(a, from) < a.len(),
    ensures
        first_marker(a + more, from) == first_marker(a, from),
    decreases a.len() - from,
{
    if from < a.len() {
        if marker_at(a, from) {
            assert((a + more)[from] == a[from]);
            assert((a + more)[from + 1] == a[from + 1]);
        } else {
            lemma_first_marker_appended(a, more, from + 1);
            if from + 1 < a.len() {
                assert((a + more)[from] == a[from]);
                assert((a + more)[from + 1] == a[from + 1]);
            } else {
                assert(first_marker(a, from + 1) == a.len());
            }
        }
    }
}

/// Text put behind a separator does not reach back: the tokens of a text
/// that ends cleanly, followed by a separator and more text, are the tokens
/// of the text, then those of what follows.
pub proof fn law_tokens_of_appended_text(s: Seq<char>, sep: Seq<char>, more: Seq<char>)
    requires
        sep.len() > 0,
        ends_cleanly(s, sep),
    ensures
        all_tokens(s + sep + more, sep) == all_tokens(s, sep) + all_tokens(more, sep),
{
    lemma_tokens_appended(s, sep, more, 0, 0);
}

/// Whatever text follows the end-of-message tag is dropped. Let a text
/// decode, with its message ending cleanly, and let a separator and any
/// further text be put behind it. Where the longer text has the same
/// separator found, it decodes to the same tree.
pub proof fn law_text_behind_end_tag(text: Seq<char>, sep: Seq<char>, more: Seq<char>)
    requires
        decode_text(text) is Ok,
        separator(text.subrange(first_marker(text, 0), text.len() as int)) == Some(sep),
        separator(
            (text + sep + more).subrange(
                first_marker(text + sep + more, 0),
                (text + sep + more).len() as int,
            ),
        ) == Some(sep),
        sep.len() > 0,
        ends_cleanly(text.subrange(first_marker(text, 0), text.len() as int), sep),
    ensures
        decode_text(text + sep + more) == decode_text(text),
{
    let longer = text + sep + more;
    let start = first_marker(text, 0);
    let body = text.subrange(start, text.len() as int);
    law_first_marker_is_least(text, 0);
    lemma_first_marker_appended(text, sep + more, 0);
    assert(longer =~= text + (sep + more));
    assert(longer.subrange(start, longer.len() as int) =~= body + sep + more);
    lemma_tokens_appended(body, sep, more, 0, 0);
    let tokens = all_tokens(body, sep);
    lemma_up_to_end(tokens);
    law_truncation(tokens, all_tokens(more, sep));
}

} // verus!
