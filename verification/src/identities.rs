//! Identity answers (`SSH_AGENT_IDENTITIES_ANSWER`): parsing, merging across
//! agents with deduplication by public-key blob, and encoding.
//!
//! An answer is the byte 12, a big-endian `u32` count, then that many pairs of
//! length-prefixed strings: a public-key blob and a comment. Nothing may follow
//! the last pair.
use vstd::prelude::*;

use crate::bytes::{
    be_u32_bytes, be_u32_value, byte_views, bytes_equal, copy_bytes, read_be_u32, write_be_u32,
};

verus! {

/// `SSH_AGENT_IDENTITIES_ANSWER`.
pub const IDENTITIES_ANSWER: u8 = 12;

/// One identity: a public-key blob and its comment.
pub type IdentityModel = (Seq<u8>, Seq<u8>);

/// A length-prefixed string at the start of `bytes`, and what follows it.
pub open spec fn spec_read_string(bytes: Seq<u8>) -> Option<(Seq<u8>, Seq<u8>)> {
    if bytes.len() < 4 {
        None
    } else {
        let length = be_u32_value(bytes[0], bytes[1], bytes[2], bytes[3]);
        if 4 + length <= bytes.len() {
            Some((bytes.subrange(4, 4 + length), bytes.skip(4 + length)))
        } else {
            None
        }
    }
}

/// Exactly `count` identities filling `bytes`.
pub open spec fn spec_read_identities(bytes: Seq<u8>, count: nat) -> Option<Seq<IdentityModel>>
    decreases count,
{
    if count == 0 {
        if bytes.len() == 0 {
            Some(Seq::empty())
        } else {
            None
        }
    } else {
        match spec_read_string(bytes) {
            None => None,
            Some((key, after_key)) => match spec_read_string(after_key) {
                None => None,
                Some((comment, rest)) => match spec_read_identities(rest, (count - 1) as nat) {
                    None => None,
                    Some(more) => Some(seq![(key, comment)] + more),
                },
            },
        }
    }
}

/// The identities of a well-formed identities answer.
pub open spec fn spec_parse_answer(answer: Seq<u8>) -> Option<Seq<IdentityModel>> {
    if answer.len() < 5 || answer[0] != IDENTITIES_ANSWER {
        None
    } else {
        spec_read_identities(answer.skip(5), be_u32_value(answer[1], answer[2], answer[3], answer[4]) as nat)
    }
}

/// The keys of a sequence of identities.
pub open spec fn identity_keys(identities: Seq<IdentityModel>) -> Seq<Seq<u8>> {
    identities.map_values(|identity: IdentityModel| identity.0)
}

/// The first identity for every key, in order.
pub open spec fn unique_identities(identities: Seq<IdentityModel>) -> Seq<IdentityModel>
    decreases identities.len(),
{
    if identities.len() == 0 {
        Seq::empty()
    } else {
        let earlier = unique_identities(identities.drop_last());
        if identity_keys(earlier).contains(identities.last().0) {
            earlier
        } else {
            earlier.push(identities.last())
        }
    }
}

/// All identities of the well-formed answers, in answer order; malformed
/// answers contribute nothing.
pub open spec fn offered_identities(answers: Seq<Seq<u8>>) -> Seq<IdentityModel>
    decreases answers.len(),
{
    if answers.len() == 0 {
        Seq::empty()
    } else {
        offered_identities(answers.drop_last()) + match spec_parse_answer(answers.last()) {
            Some(identities) => identities,
            None => Seq::empty(),
        }
    }
}

/// Whether any answer is well formed.
pub open spec fn any_well_formed(answers: Seq<Seq<u8>>) -> bool {
    exists|i: int| 0 <= i < answers.len() && spec_parse_answer(#[trigger] answers[i]) is Some
}

/// A length-prefixed string.
pub open spec fn spec_string(bytes: Seq<u8>) -> Seq<u8> {
    be_u32_bytes(bytes.len() as u32) + bytes
}

/// The encoded identity pairs.
pub open spec fn spec_encode_pairs(identities: Seq<IdentityModel>) -> Seq<u8>
    decreases identities.len(),
{
    if identities.len() == 0 {
        Seq::empty()
    } else {
        spec_encode_pairs(identities.drop_last()) + spec_string(identities.last().0) + spec_string(
            identities.last().1,
        )
    }
}

/// The identities answer listing `identities`.
pub open spec fn spec_encode_answer(identities: Seq<IdentityModel>) -> Seq<u8> {
    seq![IDENTITIES_ANSWER] + be_u32_bytes(identities.len() as u32) + spec_encode_pairs(identities)
}

/// The union answer: every distinct key offered by a well-formed answer, with
/// the comment of its first occurrence, when some answer is well formed and
/// the union fits in `maximum` bytes.
pub open spec fn spec_merge_answers(answers: Seq<Seq<u8>>, maximum: usize) -> Option<Seq<u8>> {
    let union = unique_identities(offered_identities(answers));
    if any_well_formed(answers) && fits(union, maximum) {
        Some(spec_encode_answer(union))
    } else {
        None
    }
}

/// The models of owned identities.
pub open spec fn identity_views(items: Seq<(Vec<u8>, Vec<u8>)>) -> Seq<IdentityModel> {
    items.map_values(|identity: (Vec<u8>, Vec<u8>)| (identity.0@, identity.1@))
}

/// Every key and comment is short enough for a `u32` length prefix.
pub open spec fn strings_fit(identities: Seq<IdentityModel>) -> bool {
    forall|i: int|
        0 <= i < identities.len() ==> (#[trigger] identities[i]).0.len() <= u32::MAX
            && identities[i].1.len() <= u32::MAX
}

/// Reads a length-prefixed string at `offset`, returning the bounds of its bytes.
pub fn read_string(bytes: &[u8], offset: usize) -> (bounds: Option<(usize, usize)>)
    requires
        offset <= bytes@.len(),
    ensures
        match spec_read_string(bytes@.skip(offset as int)) {
            None => bounds is None,
            Some((text, rest)) => bounds matches Some((start, end)) && offset + 4 == start && start
                <= end <= bytes@.len() && end - start <= u32::MAX && text == bytes@.subrange(
                start as int,
                end as int,
            ) && rest == bytes@.skip(end as int),
        },
{
    let ghost tail = bytes@.skip(offset as int);
    if bytes.len() - offset < 4 {
        return None;
    }
    let header = vstd::slice::slice_subrange(bytes, offset, offset + 4);
    assert(header@ =~= tail.take(4));
    let length = read_be_u32(header) as usize;
    let start = offset + 4;
    if length > bytes.len() - start {
        return None;
    }
    let end = start + length;
    assert(tail.subrange(4, 4 + length as int) =~= bytes@.subrange(start as int, end as int));
    assert(tail.skip(4 + length as int) =~= bytes@.skip(end as int));
    Some((start, end))
}

/// Parses an identities answer into its identities.
pub fn parse_answer(answer: &[u8]) -> (identities: Option<Vec<(Vec<u8>, Vec<u8>)>>)
    ensures
        spec_parse_answer(answer@) == match identities {
            Some(found) => Some(identity_views(found@)),
            None => None,
        },
        identities matches Some(found) ==> strings_fit(identity_views(found@)),
{
    if answer.len() < 5 || answer[0] != IDENTITIES_ANSWER {
        return None;
    }
    let header = vstd::slice::slice_subrange(answer, 1, 5);
    let count = read_be_u32(header);
    let ghost body = answer@.skip(5);
    assert(spec_parse_answer(answer@) == spec_read_identities(body, count as nat));
    let mut found: Vec<(Vec<u8>, Vec<u8>)> = Vec::new();
    let mut offset: usize = 5;
    let mut remaining: u32 = count;
    proof {
        assert(answer@.skip(5) == body);
        match spec_read_identities(body, count as nat) {
            Some(more) => {
                assert(identity_views(found@)
                    =~= Seq::<IdentityModel>::empty());
                assert(Seq::<IdentityModel>::empty() + more =~= more);
            },
            None => {},
        }
    }
    while remaining > 0
        invariant
            5 <= offset <= answer@.len(),
            remaining <= count,
            body == answer@.skip(5),
            spec_parse_answer(answer@) == spec_read_identities(body, count as nat),
            strings_fit(identity_views(found@)),
            spec_read_identities(body, count as nat) == match spec_read_identities(
                answer@.skip(offset as int),
                remaining as nat,
            ) {
                Some(more) => Some(
                    identity_views(found@)
                        + more,
                ),
                None => None,
            },
        decreases remaining,
    {
        let ghost here = answer@.skip(offset as int);
        let ghost before = identity_views(found@);
        let key = match read_string(answer, offset) {
            Some(bounds) => bounds,
            None => {
                assert(spec_read_string(here) is None);
                assert(spec_read_identities(here, remaining as nat) is None);
                return None;
            },
        };
        let comment = match read_string(answer, key.1) {
            Some(bounds) => bounds,
            None => {
                assert(spec_read_string(answer@.skip(key.1 as int)) is None);
                assert(spec_read_identities(here, remaining as nat) is None);
                return None;
            },
        };
        let key_bytes = copy_bytes(vstd::slice::slice_subrange(answer, key.0, key.1));
        let comment_bytes = copy_bytes(vstd::slice::slice_subrange(answer, comment.0, comment.1));
        found.push((key_bytes, comment_bytes));
        offset = comment.1;
        remaining = remaining - 1;
        proof {
            let after = identity_views(found@);
            assert(after =~= before.push((key_bytes@, comment_bytes@)));
            match spec_read_identities(answer@.skip(offset as int), remaining as nat) {
                Some(more) => {
                    assert(before + (seq![(key_bytes@, comment_bytes@)] + more) =~= after + more);
                },
                None => {},
            }
        }
    }
    if offset != answer.len() {
        proof {
            assert(answer@.skip(offset as int).len() > 0);
        }
        return None;
    }
    proof {
        let all = identity_views(found@);
        assert(answer@.skip(offset as int).len() == 0);
        assert(all + Seq::<IdentityModel>::empty() =~= all);
    }
    Some(found)
}

/// Whether the answer listing `identities` can be sent: its count fits the
/// `u32` header and the whole message fits in `maximum` bytes.
pub open spec fn fits(identities: Seq<IdentityModel>, maximum: usize) -> bool {
    identities.len() <= u32::MAX && spec_encode_answer(identities).len() <= maximum
}

/// Encoding one more pair extends the encoding of the pairs before it.
proof fn lemma_pairs_step(identities: Seq<IdentityModel>, count: int)
    requires
        0 <= count < identities.len(),
    ensures
        spec_encode_pairs(identities.take(count + 1)) == spec_encode_pairs(identities.take(count))
            + spec_string(identities[count].0) + spec_string(identities[count].1),
        spec_string(identities[count].0).len() == 4 + identities[count].0.len(),
        spec_string(identities[count].1).len() == 4 + identities[count].1.len(),
{
    assert(identities.take(count + 1).drop_last() =~= identities.take(count));
}

/// The encoding of a prefix of the pairs is no longer than that of all of them.
proof fn lemma_pairs_prefix_shorter(identities: Seq<IdentityModel>, count: int)
    requires
        0 <= count <= identities.len(),
    ensures
        spec_encode_pairs(identities.take(count)).len() <= spec_encode_pairs(identities).len(),
    decreases identities.len() - count,
{
    if count == identities.len() {
        assert(identities.take(count) =~= identities);
    } else {
        lemma_pairs_step(identities, count);
        lemma_pairs_prefix_shorter(identities, count + 1);
    }
}

/// Appends a copy of `bytes` to `out`.
fn append_bytes(out: &mut Vec<u8>, bytes: &[u8])
    ensures
        final(out)@ == old(out)@ + bytes@,
{
    let mut piece = copy_bytes(bytes);
    out.append(&mut piece);
}

/// Encodes the identities answer listing `identities`, unless it would not
/// fit (see [`fits`]).
pub fn encode_answer(identities: &Vec<(Vec<u8>, Vec<u8>)>, maximum: usize) -> (answer: Option<Vec<u8>>)
    requires
        strings_fit(identity_views(identities@)),
    ensures
        match answer {
            Some(encoded) => fits(identity_views(identities@), maximum) && encoded@
                == spec_encode_answer(identity_views(identities@)),
            None => !fits(identity_views(identities@), maximum),
        },
{
    let ghost views = identity_views(identities@);
    assert(spec_encode_answer(views).len() == 5 + spec_encode_pairs(views).len());
    if maximum < 5 || identities.len() as u64 > 4294967295u64 {
        return None;
    }
    let mut budget: usize = maximum - 5;
    let mut index: usize = 0;
    while index < identities.len()
        invariant
            views == identity_views(identities@),
            index <= identities@.len(),
            maximum >= 5,
            budget + 5 + spec_encode_pairs(views.take(index as int)).len() == maximum,
        decreases identities@.len() - index,
    {
        let key_length = identities[index].0.len();
        let comment_length = identities[index].1.len();
        proof {
            lemma_pairs_step(views, index as int);
        }
        if budget < 8 || key_length > budget - 8 || comment_length > budget - 8 - key_length {
            proof {
                lemma_pairs_prefix_shorter(views, index + 1);
            }
            return None;
        }
        budget = budget - 8 - key_length - comment_length;
        index = index + 1;
    }
    assert(views.take(identities@.len() as int) =~= views);
    let mut answer: Vec<u8> = vec![IDENTITIES_ANSWER];
    append_bytes(&mut answer, write_be_u32(identities.len() as u32).as_slice());
    assert(views.take(0) =~= Seq::<IdentityModel>::empty());
    assert(answer@ =~= seq![IDENTITIES_ANSWER] + be_u32_bytes(views.len() as u32) + spec_encode_pairs(
        views.take(0),
    ));
    let mut index: usize = 0;
    while index < identities.len()
        invariant
            views == identity_views(identities@),
            strings_fit(views),
            index <= identities@.len(),
            answer@ == seq![IDENTITIES_ANSWER] + be_u32_bytes(views.len() as u32) + spec_encode_pairs(
                views.take(index as int),
            ),
        decreases identities@.len() - index,
    {
        let ghost before = answer@;
        let key = identities[index].0.as_slice();
        let comment = identities[index].1.as_slice();
        assert(views[index as int] == (key@, comment@));
        append_bytes(&mut answer, write_be_u32(key.len() as u32).as_slice());
        append_bytes(&mut answer, key);
        append_bytes(&mut answer, write_be_u32(comment.len() as u32).as_slice());
        append_bytes(&mut answer, comment);
        proof {
            lemma_pairs_step(views, index as int);
            assert(answer@ =~= before + spec_string(key@) + spec_string(comment@));
        }
        index = index + 1;
    }
    assert(views.take(identities@.len() as int) =~= views);
    Some(answer)
}

/// Adding one identity to a deduplicated list keeps the first of each key.
proof fn lemma_unique_push(identities: Seq<IdentityModel>, identity: IdentityModel)
    ensures
        unique_identities(identities.push(identity)) == if identity_keys(
            unique_identities(identities),
        ).contains(identity.0) {
            unique_identities(identities)
        } else {
            unique_identities(identities).push(identity)
        },
{
    assert(identities.push(identity).drop_last() =~= identities);
}

/// Adds `identity` to `union` unless an identity with its key is there.
fn add_unique(union: &mut Vec<(Vec<u8>, Vec<u8>)>, identity: (Vec<u8>, Vec<u8>))
    ensures
        identity_views(final(union)@) == if identity_keys(identity_views(old(union)@)).contains(
            identity.0@,
        ) {
            identity_views(old(union)@)
        } else {
            identity_views(old(union)@).push((identity.0@, identity.1@))
        },
{
    let ghost views = identity_views(union@);
    let mut index: usize = 0;
    while index < union.len()
        invariant
            views == identity_views(union@),
            index <= union@.len(),
            forall|i: int| 0 <= i < index ==> views[i].0 != identity.0@,
        decreases union@.len() - index,
    {
        if bytes_equal(union[index].0.as_slice(), identity.0.as_slice()) {
            assert(identity_keys(views)[index as int] == identity.0@);
            return;
        }
        index = index + 1;
    }
    assert(!identity_keys(views).contains(identity.0@)) by {
        if identity_keys(views).contains(identity.0@) {
            let i = choose|i: int| 0 <= i < identity_keys(views).len() && identity_keys(views)[i]
                == identity.0@;
            assert(views[i].0 == identity.0@);
        }
    }
    union.push(identity);
    assert(identity_views(union@) =~= views.push((identity.0@, identity.1@)));
}

/// Parsing the answers one after the other extends the offered identities.
proof fn lemma_offered_step(answers: Seq<Seq<u8>>, count: int)
    requires
        0 <= count < answers.len(),
    ensures
        offered_identities(answers.take(count + 1)) == offered_identities(answers.take(count))
            + match spec_parse_answer(answers[count]) {
            Some(identities) => identities,
            None => Seq::empty(),
        },
{
    assert(answers.take(count + 1).drop_last() =~= answers.take(count));
}

/// Merges identity answers from several agents into one answer (see
/// [`spec_merge_answers`]): `None` when no answer is well formed or the union
/// does not fit in `maximum` bytes.
pub fn merge_answers(answers: &Vec<Vec<u8>>, maximum: usize) -> (merged: Option<Vec<u8>>)
    ensures
        match merged {
            Some(answer) => Some(answer@),
            None => None,
        } == spec_merge_answers(byte_views(answers@), maximum),
{
    let ghost views = byte_views(answers@);
    let mut union: Vec<(Vec<u8>, Vec<u8>)> = Vec::new();
    let mut any = false;
    let mut index: usize = 0;
    assert(views.take(0) =~= Seq::<Seq<u8>>::empty());
    assert(identity_views(union@) =~= Seq::<IdentityModel>::empty());
    while index < answers.len()
        invariant
            views == byte_views(answers@),
            index <= answers@.len(),
            identity_views(union@) == unique_identities(offered_identities(views.take(index as int))),
            strings_fit(identity_views(union@)),
            any == exists|i: int| 0 <= i < index && spec_parse_answer(#[trigger] views[i]) is Some,
        decreases answers@.len() - index,
    {
        assert(views[index as int] == answers@[index as int]@);
        proof {
            lemma_offered_step(views, index as int);
        }
        let ghost offered_before = offered_identities(views.take(index as int));
        match parse_answer(answers[index].as_slice()) {
            Some(found) => {
                let ghost parsed = identity_views(found@);
                let mut item: usize = 0;
                assert(offered_before + parsed.take(0) =~= offered_before);
                while item < found.len()
                    invariant
                        parsed == identity_views(found@),
                        strings_fit(parsed),
                        item <= found@.len(),
                        identity_views(union@) == unique_identities(
                            offered_before + parsed.take(item as int),
                        ),
                        strings_fit(identity_views(union@)),
                    decreases found@.len() - item,
                {
                    let key = copy_bytes(found[item].0.as_slice());
                    let comment = copy_bytes(found[item].1.as_slice());
                    assert(parsed[item as int] == (key@, comment@));
                    let ghost union_before = identity_views(union@);
                    add_unique(&mut union, (key, comment));
                    proof {
                        assert(offered_before + parsed.take(item + 1) =~= (offered_before
                            + parsed.take(item as int)).push((key@, comment@)));
                        lemma_unique_push(offered_before + parsed.take(item as int), (key@, comment@));
                        assert forall|i: int| 0 <= i < identity_views(union@).len() implies (
                        #[trigger] identity_views(union@)[i]).0.len() <= u32::MAX
                            && identity_views(union@)[i].1.len() <= u32::MAX by {
                            if i < union_before.len() {
                                assert(identity_views(union@)[i] == union_before[i]);
                            }
                        }
                    }
                    item = item + 1;
                }
                assert(parsed.take(found@.len() as int) =~= parsed);
                any = true;
            },
            None => {
                assert(offered_before + Seq::<IdentityModel>::empty() =~= offered_before);
            },
        }
        index = index + 1;
    }
    assert(views.take(answers@.len() as int) =~= views);
    if !any {
        return None;
    }
    encode_answer(&union, maximum)
}

/// Whether no two identities share a key.
pub open spec fn keys_distinct(identities: Seq<IdentityModel>) -> bool {
    forall|i: int, j: int|
        0 <= i < j < identities.len() ==> (#[trigger] identities[i]).0 != (#[trigger] identities[j]).0
}

/// Whether `identities[index]` is the first identity with its key.
pub open spec fn first_with_key(identities: Seq<IdentityModel>, index: int) -> bool {
    forall|j: int| 0 <= j < index ==> (#[trigger] identities[j]).0 != identities[index].0
}

/// What deduplication keeps and drops.
proof fn lemma_unique_identities(identities: Seq<IdentityModel>)
    ensures
        keys_distinct(unique_identities(identities)),
        forall|i: int|
            0 <= i < identities.len() ==> identity_keys(unique_identities(identities)).contains(
                (#[trigger] identities[i]).0,
            ),
        forall|k: int|
            0 <= k < unique_identities(identities).len() ==> identities.contains(
                #[trigger] unique_identities(identities)[k],
            ),
        forall|i: int|
            0 <= i < identities.len() && first_with_key(identities, i) ==> unique_identities(
                identities,
            ).contains(#[trigger] identities[i]),
    decreases identities.len(),
{
    if identities.len() > 0 {
        let earlier = identities.drop_last();
        let last = identities.last();
        lemma_unique_identities(earlier);
        assert(earlier.push(last) =~= identities);
        lemma_unique_push(earlier, last);
        let before = unique_identities(earlier);
        let after = unique_identities(identities);
        assert forall|i: int| 0 <= i < identities.len() implies identity_keys(after).contains(
            (#[trigger] identities[i]).0,
        ) by {
            if i < earlier.len() {
                assert(identities[i] == earlier[i]);
                let k = choose|k: int| 0 <= k < identity_keys(before).len() && identity_keys(before)[k]
                    == earlier[i].0;
                assert(identity_keys(after)[k] == before[k].0);
            } else {
                if !identity_keys(before).contains(last.0) {
                    assert(identity_keys(after)[before.len() as int] == last.0);
                }
            }
        }
        assert forall|k: int| 0 <= k < after.len() implies identities.contains(#[trigger] after[k]) by {
            if k < before.len() {
                assert(after[k] == before[k]);
                let j = choose|j: int| 0 <= j < earlier.len() && earlier[j] == before[k];
                assert(identities[j] == earlier[j]);
            } else {
                assert(identities[identities.len() - 1] == last);
            }
        }
        assert forall|i: int|
            0 <= i < identities.len() && first_with_key(identities, i) implies after.contains(
            #[trigger] identities[i],
        ) by {
            if i < earlier.len() {
                assert(identities[i] == earlier[i]);
                assert(first_with_key(earlier, i)) by {
                    assert forall|j: int| 0 <= j < i implies (#[trigger] earlier[j]).0 != earlier[i].0 by {
                        assert(identities[j] == earlier[j]);
                    }
                }
                let k = choose|k: int| 0 <= k < before.len() && before[k] == earlier[i];
                assert(after[k] == before[k]);
            } else {
                assert(!identity_keys(before).contains(last.0)) by {
                    if identity_keys(before).contains(last.0) {
                        let k = choose|k: int| 0 <= k < identity_keys(before).len()
                            && identity_keys(before)[k] == last.0;
                        assert(identity_keys(before)[k] == before[k].0);
                        let j = choose|j: int| 0 <= j < earlier.len() && earlier[j] == before[k];
                        assert(identities[j] == earlier[j]);
                    }
                }
                assert(after[before.len() as int] == last);
            }
        }
        assert forall|i: int, j: int| 0 <= i < j < after.len() implies (#[trigger] after[i]).0 != (
        #[trigger] after[j]).0 by {
            if j < before.len() {
                assert(after[i] == before[i]);
                assert(after[j] == before[j]);
            } else {
                assert(after[i] == before[i]);
                assert(identity_keys(before)[i] == before[i].0);
            }
        }
    }
}

/// A length-prefixed string reads back as itself.
proof fn lemma_read_string(text: Seq<u8>, rest: Seq<u8>)
    requires
        text.len() <= u32::MAX,
    ensures
        spec_read_string(spec_string(text) + rest) == Some((text, rest)),
{
    let bytes = spec_string(text) + rest;
    crate::bytes::lemma_be_u32_roundtrip(text.len() as u32);
    assert(bytes.subrange(4, 4 + text.len() as int) =~= text);
    assert(bytes.skip(4 + text.len() as int) =~= rest);
}

/// Reading the encoded pairs of `identities` followed by `tail`.
#[verifier::spinoff_prover]
#[verifier::rlimit(30)]
proof fn lemma_read_pairs(identities: Seq<IdentityModel>, tail: Seq<u8>, more: nat)
    requires
        strings_fit(identities),
    ensures
        spec_read_identities(spec_encode_pairs(identities) + tail, identities.len() + more)
            == match spec_read_identities(tail, more) {
            Some(rest) => Some(identities + rest),
            None => None,
        },
    decreases identities.len(),
{
    if identities.len() == 0 {
        assert(spec_encode_pairs(identities) + tail =~= tail);
        match spec_read_identities(tail, more) {
            Some(rest) => {
                assert(identities + rest =~= rest);
            },
            None => {},
        }
    } else {
        let earlier = identities.drop_last();
        let last = identities.last();
        assert(identities[identities.len() - 1] == last);
        let after_last = spec_string(last.1) + tail;
        let last_pair = spec_string(last.0) + after_last;
        assert(strings_fit(earlier)) by {
            assert forall|i: int| 0 <= i < earlier.len() implies (#[trigger] earlier[i]).0.len()
                <= u32::MAX && earlier[i].1.len() <= u32::MAX by {
                assert(earlier[i] == identities[i]);
            }
        }
        lemma_read_pairs(earlier, last_pair, more + 1);
        assert(spec_encode_pairs(identities) + tail =~= spec_encode_pairs(earlier) + last_pair);
        assert(earlier.len() + (more + 1) == identities.len() + more);
        lemma_read_string(last.0, after_last);
        lemma_read_string(last.1, tail);
        match spec_read_identities(tail, more) {
            Some(rest) => {
                assert(earlier + (seq![(last.0, last.1)] + rest) =~= identities + rest);
            },
            None => {},
        }
    }
}

/// An encoded identities answer parses back to the identities it lists.
pub proof fn law_encoded_answer_parses_back(identities: Seq<IdentityModel>)
    requires
        strings_fit(identities),
        identities.len() <= u32::MAX,
    ensures
        spec_parse_answer(spec_encode_answer(identities)) == Some(identities),
{
    let answer = spec_encode_answer(identities);
    crate::bytes::lemma_be_u32_roundtrip(identities.len() as u32);
    assert(answer.skip(5) =~= spec_encode_pairs(identities) + Seq::<u8>::empty());
    lemma_read_pairs(identities, Seq::empty(), 0);
    assert(identities + Seq::<IdentityModel>::empty() =~= identities);
}

/// Parsed keys and comments always fit a `u32` length prefix.
proof fn lemma_read_identities_fit(bytes: Seq<u8>, count: nat)
    ensures
        spec_read_identities(bytes, count) matches Some(identities) ==> strings_fit(identities),
    decreases count,
{
    if count > 0 {
        match spec_read_string(bytes) {
            None => {},
            Some((key, after_key)) => match spec_read_string(after_key) {
                None => {},
                Some((comment, rest)) => {
                    lemma_read_identities_fit(rest, (count - 1) as nat);
                    match spec_read_identities(rest, (count - 1) as nat) {
                        None => {},
                        Some(more) => {
                            let all = seq![(key, comment)] + more;
                            assert forall|i: int| 0 <= i < all.len() implies (#[trigger] all[i]).0.len()
                                <= u32::MAX && all[i].1.len() <= u32::MAX by {
                                if i > 0 {
                                    assert(all[i] == more[i - 1]);
                                }
                            }
                        },
                    }
                },
            },
        }
    }
}

/// Every offered key and comment fits a `u32` length prefix.
proof fn lemma_offered_fit(answers: Seq<Seq<u8>>)
    ensures
        strings_fit(offered_identities(answers)),
    decreases answers.len(),
{
    if answers.len() > 0 {
        let earlier = offered_identities(answers.drop_last());
        lemma_offered_fit(answers.drop_last());
        let last = answers.last();
        if last.len() >= 5 {
            lemma_read_identities_fit(last.skip(5), be_u32_value(last[1], last[2], last[3], last[4]) as nat);
        }
        let added = match spec_parse_answer(last) {
            Some(identities) => identities,
            None => Seq::empty(),
        };
        let all = earlier + added;
        assert forall|i: int| 0 <= i < all.len() implies (#[trigger] all[i]).0.len() <= u32::MAX
            && all[i].1.len() <= u32::MAX by {
            if i < earlier.len() {
                assert(all[i] == earlier[i]);
            } else {
                assert(all[i] == added[i - earlier.len()]);
            }
        }
    }
}

/// The merged answer is a well-formed identities answer of at most `maximum`
/// bytes that lists the union of the offered identities: every key offered by
/// some agent exactly once, with the comment of its first occurrence in
/// candidate order, and nothing that no agent offered.
pub proof fn law_merged_answer_is_a_deduplicated_union(answers: Seq<Seq<u8>>, maximum: usize)
    requires
        spec_merge_answers(answers, maximum) is Some,
    ensures
        ({
            let merged = spec_merge_answers(answers, maximum)->0;
            let offered = offered_identities(answers);
            let union = unique_identities(offered);
            &&& merged.len() <= maximum
            &&& spec_parse_answer(merged) == Some(union)
            &&& keys_distinct(union)
            &&& forall|i: int|
                0 <= i < offered.len() ==> identity_keys(union).contains((#[trigger] offered[i]).0)
            &&& forall|k: int| 0 <= k < union.len() ==> offered.contains(#[trigger] union[k])
            &&& forall|i: int|
                0 <= i < offered.len() && first_with_key(offered, i) ==> union.contains(
                    #[trigger] offered[i],
                )
        }),
{
    let offered = offered_identities(answers);
    let union = unique_identities(offered);
    lemma_unique_identities(offered);
    lemma_offered_fit(answers);
    assert(strings_fit(union)) by {
        assert forall|k: int| 0 <= k < union.len() implies (#[trigger] union[k]).0.len() <= u32::MAX
            && union[k].1.len() <= u32::MAX by {
            assert(offered.contains(union[k]));
            let i = choose|i: int| 0 <= i < offered.len() && offered[i] == union[k];
        }
    }
    law_encoded_answer_parses_back(union);
}

} // verus!
