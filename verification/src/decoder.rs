//! The BILOU decoder: turns per-token label predictions into entity spans.
//!
//! Positions `1` and `len - 1` of the token sequence are taken to be the
//! encoder's boundary markers and are never decoded; decoding also stops at
//! the first interior token equal to the end-of-sequence marker. Within the
//! decoded range, consecutive tokens are merged into one group until the
//! parsed entity type changes or a Begin tag opens a new group.

use vstd::prelude::*;

use crate::{BILOU, EntityGroup, spec_is_begin_label, spec_label_type};

verus! {

/// Mathematical model of an emitted entity group.
#[verifier::ext_equal]
pub ghost struct GroupModel {
    /// The characters of the source text covered by the group.
    pub text: Seq<char>,
    /// Character offset of the first covered character.
    pub start: int,
    /// Character offset one past the last covered character.
    pub end: int,
    /// Whether the group's tag is a Begin tag.
    pub begin: bool,
    /// The entity type of the group's tag.
    pub typ: Seq<char>,
}

impl<'a> View for EntityGroup<'a> {
    type V = GroupModel;

    open spec fn view(&self) -> GroupModel {
        GroupModel {
            text: self.text@,
            start: self.start as int,
            end: self.end as int,
            begin: self.label is B,
            typ: self.label.spec_type(),
        }
    }
}

/// The models of a sequence of emitted groups.
pub open spec fn views_of<'a>(gs: Seq<EntityGroup<'a>>) -> Seq<GroupModel> {
    gs.map_values(|g: EntityGroup<'a>| g@)
}

/// The label string predicted for token `i`.
pub open spec fn label_at(idxs: Seq<u32>, labels: Seq<String>, i: int) -> Seq<char> {
    labels[idxs[i] as int]@
}

/// Token `i` is the end-of-sequence marker.
pub open spec fn is_marker(tokens: Seq<Option<String>>, sep: Seq<char>, i: int) -> bool {
    tokens[i] matches Some(t) && t@ == sep
}

/// The first position at or after `i` that stops decoding: the first
/// end-of-sequence marker, or `len - 1` where none occurs earlier.
pub open spec fn marker_limit_from(tokens: Seq<Option<String>>, sep: Seq<char>, i: int) -> int
    decreases tokens.len() - i,
{
    if i >= tokens.len() - 1 {
        i
    } else if is_marker(tokens, sep, i) {
        i
    } else {
        marker_limit_from(tokens, sep, i + 1)
    }
}

/// One past the last decoded position: decoding covers `1 .. marker_limit`.
pub open spec fn marker_limit(tokens: Seq<Option<String>>, sep: Seq<char>) -> int {
    marker_limit_from(tokens, sep, 1)
}

/// A fresh group must be opened at position `i`: the parsed entity type
/// differs from the previous token's, or the new tag is a Begin tag.
pub open spec fn splits_at(idxs: Seq<u32>, labels: Seq<String>, i: int) -> bool {
    spec_label_type(label_at(idxs, labels, i)) != spec_label_type(label_at(idxs, labels, i - 1))
        || spec_is_begin_label(label_at(idxs, labels, i))
}

/// The group closed over the token run `[lo, hi)`: it spans from the first
/// token's start offset to the last token's end offset and carries the parsed
/// tag of the last token of the run.
pub open spec fn group_model(
    text: Seq<char>,
    offsets: Seq<(usize, usize)>,
    idxs: Seq<u32>,
    labels: Seq<String>,
    lo: int,
    hi: int,
) -> GroupModel {
    GroupModel {
        text: text.subrange(offsets[lo].0 as int, offsets[hi - 1].1 as int),
        start: offsets[lo].0 as int,
        end: offsets[hi - 1].1 as int,
        begin: spec_is_begin_label(label_at(idxs, labels, hi - 1)),
        typ: spec_label_type(label_at(idxs, labels, hi - 1)),
    }
}

/// The groups emitted while scanning positions `i .. hi` with a run open
/// since position `run_start`. The run is closed ahead of every splitting
/// position and once more when the scan ends.
pub open spec fn groups_from(
    text: Seq<char>,
    offsets: Seq<(usize, usize)>,
    idxs: Seq<u32>,
    labels: Seq<String>,
    run_start: int,
    i: int,
    hi: int,
) -> Seq<GroupModel>
    decreases hi - i,
{
    if i >= hi {
        seq![group_model(text, offsets, idxs, labels, run_start, hi)]
    } else if splits_at(idxs, labels, i) {
        seq![group_model(text, offsets, idxs, labels, run_start, i)]
            + groups_from(text, offsets, idxs, labels, i, i + 1, hi)
    } else {
        groups_from(text, offsets, idxs, labels, run_start, i + 1, hi)
    }
}

/// The full decoded output for the given inputs.
pub open spec fn decoded_groups(
    text: Seq<char>,
    offsets: Seq<(usize, usize)>,
    tokens: Seq<Option<String>>,
    idxs: Seq<u32>,
    labels: Seq<String>,
    sep: Seq<char>,
) -> Seq<GroupModel> {
    let hi = marker_limit(tokens, sep);
    if hi <= 1 {
        Seq::empty()
    } else {
        groups_from(text, offsets, idxs, labels, 1, 2, hi)
    }
}

/// Every decoded position carries a label index inside the label table.
pub open spec fn indices_in_table(idxs: Seq<u32>, labels: Seq<String>, hi: int) -> bool {
    forall|i: int| 1 <= i < hi ==> (#[trigger] idxs[i]) < labels.len()
}

/// Well-formed decoder input: parallel sequences of one length, at least one
/// token, and offsets that are ordered and lie inside the text at every
/// position that is decoded. Offsets of the boundary positions, of the
/// marker and of whatever follows it are never read and may hold anything,
/// as they do for a real tokenizer's special and padding tokens.
pub open spec fn wf_decode_input(
    text: Seq<char>,
    offsets: Seq<(usize, usize)>,
    tokens: Seq<Option<String>>,
    idxs: Seq<u32>,
    sep: Seq<char>,
) -> bool {
    let hi = marker_limit(tokens, sep);
    &&& idxs.len() >= 1
    &&& offsets.len() == idxs.len()
    &&& tokens.len() == idxs.len()
    &&& forall|i: int| 1 <= i < hi ==> (#[trigger] offsets[i]).0 <= offsets[i].1 <= text.len()
    &&& forall|i: int, j: int|
        1 <= i <= j < hi ==> (#[trigger] offsets[i]).0 <= (#[trigger] offsets[j]).0 && offsets[i].1
            <= offsets[j].1
}

/// Decoding failure: a predicted label index has no entry in the label table.
#[derive(Clone, Copy, Debug, PartialEq, Eq, Structural)]
pub enum DecodeError {
    LabelIndexOutOfRange,
}

/// Decodes per-token label predictions into entity groups.
///
/// Positions `1 .. len - 1` are scanned in order; the scan stops at the
/// first token equal to `sep`. Each scanned position's label is parsed with
/// [`BILOU::from_entity_name`]; a type change or a Begin tag closes the open
/// run, and the groups are returned in source-text order. Fails, returning
/// no groups at all, exactly when some scanned position's label index lies
/// outside the label table.
#[verifier::loop_isolation(false)]
pub fn decode<'a>(
    text: &'a str,
    offsets: &Vec<(usize, usize)>,
    tokens: &Vec<Option<String>>,
    label_indices: &Vec<u32>,
    labels: &Vec<String>,
    sep: &str,
) -> (res: Result<Vec<EntityGroup<'a>>, DecodeError>)
    requires
        wf_decode_input(text@, offsets@, tokens@, label_indices@, sep@),
    ensures
        (res is Ok) <==> indices_in_table(
            label_indices@,
            labels@,
            marker_limit(tokens@, sep@),
        ),
        res matches Ok(gs) ==> views_of(gs@) == decoded_groups(
            text@,
            offsets@,
            tokens@,
            label_indices@,
            labels@,
            sep@,
        ),
        res matches Ok(gs) ==> forall|k: int|
            0 <= k < gs@.len() ==> ((#[trigger] gs@[k].label) is B || gs@[k].label is I),
        res matches Err(e) ==> e == DecodeError::LabelIndexOutOfRange,
{
    let ghost tv = text@;
    let ghost offv = offsets@;
    let ghost tokv = tokens@;
    let ghost idxv = label_indices@;
    let ghost labv = labels@;
    let ghost hi = marker_limit(tokens@, sep@);

    let n = label_indices.len();
    let sep_string = String::from_str(sep);
    let mut groups: Vec<EntityGroup<'a>> = Vec::new();
    let mut prev: Option<BILOU> = None;
    let mut run_start: usize = 1;
    let mut i: usize = 1;
    let mut stopped = false;

    while i < n - 1 && !stopped
        invariant
            stopped ==> hi == i as int,
            1 <= i,
            n >= 2 ==> i <= n - 1,
            n == 1 ==> i == 1,
            hi == marker_limit_from(tokv, sep@, i as int),
            forall|j: int| 1 <= j < i ==> !is_marker(tokv, sep@, j),
            forall|j: int| 1 <= j < i ==> (#[trigger] idxv[j]) < labv.len(),
            (prev is None) <==> i == 1,
            i == 1 ==> groups@.len() == 0 && run_start == 1,
            i > 1 ==> 1 <= run_start < i,
            i > 1 ==> (prev matches Some(p) && p.spec_type() == spec_label_type(
                label_at(idxv, labv, i - 1),
            ) && ((p is B) <==> spec_is_begin_label(label_at(idxv, labv, i - 1))) && (p is B
                || p is I)),
            i > 1 ==> decoded_groups(tv, offv, tokv, idxv, labv, sep@) == views_of(groups@)
                + groups_from(tv, offv, idxv, labv, run_start as int, i as int, hi),
            forall|k: int|
                0 <= k < groups@.len() ==> ((#[trigger] groups@[k].label) is B
                    || groups@[k].label is I),
        decreases n - i + (if stopped { 0int } else { 1int }),
    {
        // The end-of-sequence marker: everything from here on is padding.
        let stop = match &tokens[i] {
            Some(t) => t.eq(&sep_string),
            None => false,
        };
        if stop {
            stopped = true;
            continue ;
        }

        let idx = label_indices[i];
        if idx as usize >= labels.len() {
            proof {
                lemma_marker_limit_lb(tokv, sep@, i + 1);
                assert(hi >= i + 1);
                assert(1 <= i < hi && !(idxv[i as int] < labv.len()));
                assert(!indices_in_table(idxv, labv, hi));
            }
            return Err(DecodeError::LabelIndexOutOfRange);
        }
        let cur = BILOU::from_entity_name(labels[idx as usize].as_str());

        proof {
            lemma_marker_limit_lb(tokv, sep@, i + 1);
            assert(hi >= i + 1);
        }

        let do_split = match &prev {
            Some(p) => !cur.type_string().eq(p.type_string()) || cur.is_begin(),
            None => false,
        };
        if do_split {
            proof {
                assert(splits_at(idxv, labv, i as int));
            }
            let gstart = offsets[run_start].0;
            let gend = offsets[i - 1].1;
            proof {
                assert(offv[run_start as int].0 <= offv[i - 1].0 <= offv[i - 1].1);
            }
            let gtext = text.substring_char(gstart, gend);
            let closed = match prev {
                Some(p_owned) => p_owned,
                None => unreached(),
            };
            let g = EntityGroup { text: gtext, start: gstart, end: gend, label: closed };
            proof {
                assert(g@ == group_model(tv, offv, idxv, labv, run_start as int, i as int));
                assert(views_of(groups@.push(g)) =~= views_of(groups@).push(g@));
                assert(seq![g@] + groups_from(tv, offv, idxv, labv, i as int, i + 1, hi)
                    =~= groups_from(tv, offv, idxv, labv, run_start as int, i as int, hi));
                assert(views_of(groups@).push(g@) + groups_from(
                    tv,
                    offv,
                    idxv,
                    labv,
                    i as int,
                    i + 1,
                    hi,
                ) =~= views_of(groups@) + groups_from(
                    tv,
                    offv,
                    idxv,
                    labv,
                    run_start as int,
                    i as int,
                    hi,
                ));
            }
            groups.push(g);
            run_start = i;
        } else {
            proof {
                if i > 1 {
                    assert(!splits_at(idxv, labv, i as int));
                    assert(groups_from(tv, offv, idxv, labv, run_start as int, i as int, hi)
                        == groups_from(tv, offv, idxv, labv, run_start as int, i + 1, hi));
                }
            }
        }
        proof {
            if i == 1 {
                assert(views_of(groups@) =~= Seq::<GroupModel>::empty());
                assert(views_of(groups@) + groups_from(tv, offv, idxv, labv, 1, 2, hi)
                    =~= groups_from(tv, offv, idxv, labv, 1, 2, hi));
            }
        }
        prev = Some(cur);
        i += 1;
    }

    proof {
        assert(hi == i as int);
    }

    // Close the run left open at the marker or at the end of the input.
    if prev.is_some() {
        let p = match prev {
            Some(p_owned) => p_owned,
            None => unreached(),
        };
        let gstart = offsets[run_start].0;
        let gend = offsets[i - 1].1;
        proof {
            assert(offv[run_start as int].0 <= offv[i - 1].0 <= offv[i - 1].1);
        }
        let gtext = text.substring_char(gstart, gend);
        let g = EntityGroup { text: gtext, start: gstart, end: gend, label: p };
        proof {
            assert(g@ == group_model(tv, offv, idxv, labv, run_start as int, hi));
            assert(views_of(groups@.push(g)) =~= views_of(groups@).push(g@));
            assert(views_of(groups@).push(g@) =~= views_of(groups@) + groups_from(
                tv,
                offv,
                idxv,
                labv,
                run_start as int,
                i as int,
                hi,
            ));
        }
        groups.push(g);
    } else {
        proof {
            assert(views_of(groups@) =~= Seq::<GroupModel>::empty());
        }
    }
    Ok(groups)
}

/// Offsets whose adjacent members are ordered are ordered altogether.
proof fn lemma_adjacent_monotone(offsets: Seq<(usize, usize)>, hi: int, p: int, q: int)
    requires
        forall|j: int|
            2 <= j < hi ==> offsets[j - 1].0 <= (#[trigger] offsets[j]).0 && offsets[j - 1].1
                <= offsets[j].1,
        1 <= p <= q < hi,
    ensures
        offsets[p].0 <= offsets[q].0 && offsets[p].1 <= offsets[q].1,
    decreases q - p,
{
    if p < q {
        lemma_adjacent_monotone(offsets, hi, p, q - 1);
    }
}

/// Tests the decoder's input contract at run time, for callers that get
/// their offsets and predictions from an unverified source: parallel
/// sequences of one length and, over the decoded positions, in-bounds and
/// ordered offsets.
#[verifier::loop_isolation(false)]
pub fn check_decode_input(
    text: &str,
    offsets: &Vec<(usize, usize)>,
    tokens: &Vec<Option<String>>,
    label_indices: &Vec<u32>,
    sep: &str,
) -> (r: bool)
    ensures
        r == wf_decode_input(text@, offsets@, tokens@, label_indices@, sep@),
{
    let ghost offv = offsets@;
    let ghost tokv = tokens@;
    let ghost hi = marker_limit(tokens@, sep@);

    let n = label_indices.len();
    if n < 1 || offsets.len() != n || tokens.len() != n {
        return false;
    }
    let text_len = text.unicode_len();
    let sep_string = String::from_str(sep);
    let mut i: usize = 1;
    let mut stopped = false;

    while i < n - 1 && !stopped
        invariant
            1 <= i,
            n >= 2 ==> i <= n - 1,
            n == 1 ==> i == 1,
            stopped ==> hi == i as int,
            hi == marker_limit_from(tokv, sep@, i as int),
            forall|j: int| 1 <= j < i ==> !is_marker(tokv, sep@, j),
            forall|j: int| 1 <= j < i ==> (#[trigger] offv[j]).0 <= offv[j].1 <= text@.len(),
            forall|j: int|
                2 <= j < i ==> offv[j - 1].0 <= (#[trigger] offv[j]).0 && offv[j - 1].1
                    <= offv[j].1,
        decreases n - i + (if stopped { 0int } else { 1int }),
    {
        let stop = match &tokens[i] {
            Some(t) => t.eq(&sep_string),
            None => false,
        };
        if stop {
            stopped = true;
            continue ;
        }
        proof {
            lemma_marker_limit_lb(tokv, sep@, i + 1);
            assert(hi >= i + 1);
        }
        let cur = offsets[i];
        if !(cur.0 <= cur.1 && cur.1 <= text_len) {
            proof {
                assert(1 <= i < hi);
                assert(!((offv[i as int]).0 <= offv[i as int].1 <= text@.len()));
            }
            return false;
        }
        if i > 1 {
            let before = offsets[i - 1];
            if !(before.0 <= cur.0 && before.1 <= cur.1) {
                proof {
                    assert(1 <= i - 1 <= i < hi);
                    assert(!((offv[i - 1]).0 <= (offv[i as int]).0 && offv[i - 1].1
                        <= offv[i as int].1));
                }
                return false;
            }
        }
        i += 1;
    }

    proof {
        assert(hi == i as int);
        assert forall|p: int, q: int|
            1 <= p <= q < hi implies (#[trigger] offv[p]).0 <= (#[trigger] offv[q]).0
            && offv[p].1 <= offv[q].1 by {
            lemma_adjacent_monotone(offv, hi, p, q);
        }
    }
    true
}

/// The number of splitting positions in `i .. hi`.
pub open spec fn count_splits(idxs: Seq<u32>, labels: Seq<String>, i: int, hi: int) -> int
    decreases hi - i,
{
    if i >= hi {
        0
    } else {
        (if splits_at(idxs, labels, i) {
            1int
        } else {
            0int
        }) + count_splits(idxs, labels, i + 1, hi)
    }
}

/// Groups `k` and `k + 1` of `gs` part ways exactly between tokens `j - 1`
/// and `j`: the former ends at token `j - 1`'s end offset and the latter
/// starts at token `j`'s start offset.
pub open spec fn boundary_between(
    gs: Seq<GroupModel>,
    offsets: Seq<(usize, usize)>,
    j: int,
    k: int,
) -> bool {
    &&& 0 <= k < gs.len() - 1
    &&& gs[k].end == offsets[j - 1].1 as int
    &&& gs[k + 1].start == offsets[j].0 as int
}

/// Structural facts about the groups a scan emits: how many there are, where
/// they start and end, that their texts match their spans, that their starts
/// are ordered, and that every splitting position shows up as a boundary
/// between two adjacent groups.
proof fn lemma_groups_from_props(
    text: Seq<char>,
    offsets: Seq<(usize, usize)>,
    idxs: Seq<u32>,
    labels: Seq<String>,
    run_start: int,
    i: int,
    hi: int,
)
    requires
        forall|p: int| 1 <= p < hi ==> (#[trigger] offsets[p]).0 <= offsets[p].1,
        forall|p: int, q: int|
            1 <= p <= q < hi ==> (#[trigger] offsets[p]).0 <= (#[trigger] offsets[q]).0
                && offsets[p].1 <= offsets[q].1,
        1 <= run_start < i <= hi <= offsets.len(),
    ensures
        ({
            let gs = groups_from(text, offsets, idxs, labels, run_start, i, hi);
            &&& gs.len() >= 1
            &&& gs.len() == 1 + count_splits(idxs, labels, i, hi)
            &&& gs[0].start == offsets[run_start].0 as int
            &&& gs[gs.len() - 1].end == offsets[hi - 1].1 as int
            &&& forall|k: int|
                0 <= k < gs.len() ==> offsets[run_start].0 as int <= (#[trigger] gs[k]).start
                    && gs[k].end <= offsets[hi - 1].1 as int && gs[k].start <= gs[k].end
                    && gs[k].text == text.subrange(gs[k].start, gs[k].end)
            &&& forall|k: int, l: int|
                0 <= k < l < gs.len() ==> (#[trigger] gs[k]).start <= (#[trigger] gs[l]).start
            &&& forall|j: int|
                i <= j < hi && #[trigger] splits_at(idxs, labels, j) ==> exists|k: int|
                    boundary_between(gs, offsets, j, k)
        }),
    decreases hi - i,
{
    let gs = groups_from(text, offsets, idxs, labels, run_start, i, hi);
    if i >= hi {
        assert(offsets[run_start].0 <= offsets[hi - 1].0 <= offsets[hi - 1].1);
    } else if splits_at(idxs, labels, i) {
        lemma_groups_from_props(text, offsets, idxs, labels, i, i + 1, hi);
        let tail = groups_from(text, offsets, idxs, labels, i, i + 1, hi);
        let g0 = group_model(text, offsets, idxs, labels, run_start, i);
        assert(gs =~= seq![g0] + tail);
        assert(offsets[run_start].0 <= offsets[i - 1].0 <= offsets[i - 1].1);
        assert(offsets[i - 1].1 <= offsets[hi - 1].1);
        assert(offsets[run_start].0 <= offsets[i].0);
        assert(forall|k: int| 0 <= k < tail.len() ==> gs[k + 1] == tail[k]);
        assert forall|j: int|
            i <= j < hi && #[trigger] splits_at(idxs, labels, j) implies exists|k: int|
            boundary_between(gs, offsets, j, k) by {
            if j == i {
                assert(tail[0].start == offsets[i].0 as int);
                assert(boundary_between(gs, offsets, j, 0));
            } else {
                let k0 = choose|k0: int| boundary_between(tail, offsets, j, k0);
                assert(boundary_between(gs, offsets, j, k0 + 1));
            }
        }
    } else {
        lemma_groups_from_props(text, offsets, idxs, labels, run_start, i + 1, hi);
    }
}

/// When consecutive tokens do not overlap, adjacent groups do not either.
proof fn lemma_groups_from_disjoint(
    text: Seq<char>,
    offsets: Seq<(usize, usize)>,
    idxs: Seq<u32>,
    labels: Seq<String>,
    run_start: int,
    i: int,
    hi: int,
)
    requires
        forall|p: int| 1 <= p < hi ==> (#[trigger] offsets[p]).0 <= offsets[p].1,
        forall|p: int, q: int|
            1 <= p <= q < hi ==> (#[trigger] offsets[p]).0 <= (#[trigger] offsets[q]).0
                && offsets[p].1 <= offsets[q].1,
        forall|p: int| 1 <= p && p + 1 < hi ==> (#[trigger] offsets[p]).1 <= offsets[p + 1].0,
        1 <= run_start < i <= hi <= offsets.len(),
    ensures
        ({
            let gs = groups_from(text, offsets, idxs, labels, run_start, i, hi);
            forall|k: int| 0 <= k < gs.len() - 1 ==> (#[trigger] gs[k]).end <= gs[k + 1].start
        }),
    decreases hi - i,
{
    let gs = groups_from(text, offsets, idxs, labels, run_start, i, hi);
    if i >= hi {
        assert(gs.len() == 1);
        assert(forall|k: int| 0 <= k < gs.len() - 1 ==> (#[trigger] gs[k]).end <= gs[k + 1].start);
    } else if splits_at(idxs, labels, i) {
        lemma_groups_from_disjoint(text, offsets, idxs, labels, i, i + 1, hi);
        lemma_groups_from_props(text, offsets, idxs, labels, i, i + 1, hi);
        let tail = groups_from(text, offsets, idxs, labels, i, i + 1, hi);
        let g0 = group_model(text, offsets, idxs, labels, run_start, i);
        assert(gs =~= seq![g0] + tail);
        assert(offsets[i - 1].1 <= offsets[i].0);
        assert(forall|k: int| 0 <= k < tail.len() ==> gs[k + 1] == tail[k]);
        assert forall|k: int| 0 <= k < gs.len() - 1 implies (#[trigger] gs[k]).end <= gs[k
            + 1].start by {
            if k == 0 {
                assert(gs[0] == g0);
                assert(g0.end == offsets[i - 1].1 as int);
                assert(tail[0].start == offsets[i].0 as int);
                assert(gs[1] == tail[0]);
            } else {
                assert(gs[k] == tail[k - 1]);
                assert(gs[k + 1] == tail[k]);
                assert(tail[k - 1].end <= tail[k].start);
            }
        }
        assert(forall|k: int| 0 <= k < gs.len() - 1 ==> (#[trigger] gs[k]).end <= gs[k + 1].start);
    } else {
        lemma_groups_from_disjoint(text, offsets, idxs, labels, run_start, i + 1, hi);
        assert(gs == groups_from(text, offsets, idxs, labels, run_start, i + 1, hi));
        assert(forall|k: int| 0 <= k < gs.len() - 1 ==> (#[trigger] gs[k]).end <= gs[k + 1].start);
    }
}

/// A scan without any splitting position emits one single group.
proof fn lemma_no_split_single(
    text: Seq<char>,
    offsets: Seq<(usize, usize)>,
    idxs: Seq<u32>,
    labels: Seq<String>,
    run_start: int,
    i: int,
    hi: int,
)
    requires
        1 <= run_start < i <= hi,
        forall|j: int| i <= j < hi ==> !(#[trigger] splits_at(idxs, labels, j)),
    ensures
        groups_from(text, offsets, idxs, labels, run_start, i, hi) == seq![
            group_model(text, offsets, idxs, labels, run_start, hi),
        ],
    decreases hi - i,
{
    if i >= hi {
        assert(groups_from(text, offsets, idxs, labels, run_start, i, hi) =~= seq![
            group_model(text, offsets, idxs, labels, run_start, hi),
        ]);
    } else {
        lemma_no_split_single(text, offsets, idxs, labels, run_start, i + 1, hi);
    }
}

/// In a sequence of groups whose adjacent members are ordered and disjoint,
/// any earlier group ends no later than any later group starts.
proof fn lemma_ordered_chain(gs: Seq<GroupModel>, k: int, l: int)
    requires
        forall|p: int| 0 <= p < gs.len() ==> (#[trigger] gs[p]).start <= gs[p].end,
        forall|p: int| 0 <= p < gs.len() - 1 ==> (#[trigger] gs[p]).end <= gs[p + 1].start,
        0 <= k < l < gs.len(),
    ensures
        gs[k].end <= gs[l].start,
    decreases l - k,
{
    if l > k + 1 {
        lemma_ordered_chain(gs, k, l - 1);
    }
}

/// The scan never stops before the position it starts at.
proof fn lemma_marker_limit_lb(tokens: Seq<Option<String>>, sep: Seq<char>, i: int)
    ensures
        marker_limit_from(tokens, sep, i) >= i,
    decreases tokens.len() - i,
{
    if i >= tokens.len() - 1 {
    } else if is_marker(tokens, sep, i) {
    } else {
        lemma_marker_limit_lb(tokens, sep, i + 1);
    }
}

/// The scan started at `i` stops exactly at `m` when `m` is the first
/// marker at or after `i`, or the last position with no marker before it.
proof fn lemma_marker_limit_first(tokens: Seq<Option<String>>, sep: Seq<char>, i: int, m: int)
    requires
        1 <= i <= m <= tokens.len() - 1,
        is_marker(tokens, sep, m) || m == tokens.len() - 1,
        forall|j: int| i <= j < m ==> !is_marker(tokens, sep, j),
    ensures
        marker_limit_from(tokens, sep, i) == m,
    decreases m - i,
{
    if i < m {
        lemma_marker_limit_first(tokens, sep, i + 1, m);
    }
}

/// The scan stops no later than the last token position.
proof fn lemma_marker_limit_ub(tokens: Seq<Option<String>>, sep: Seq<char>, i: int)
    requires
        1 <= i <= tokens.len() - 1,
    ensures
        marker_limit_from(tokens, sep, i) <= tokens.len() - 1,
    decreases tokens.len() - i,
{
    if i >= tokens.len() - 1 {
    } else if is_marker(tokens, sep, i) {
    } else {
        lemma_marker_limit_ub(tokens, sep, i + 1);
    }
}

/// Contiguity: decoded entity groups never overlap and appear in
/// non-decreasing start order, matching source-text order, provided
/// consecutive tokens do not overlap. Tokens that mutually overlapped would
/// make the groups built from them overlap in the same way; the hypothesis
/// rules that out.
pub proof fn lemma_contiguity(
    text: Seq<char>,
    offsets: Seq<(usize, usize)>,
    tokens: Seq<Option<String>>,
    idxs: Seq<u32>,
    labels: Seq<String>,
    sep: Seq<char>,
)
    requires
        wf_decode_input(text, offsets, tokens, idxs, sep),
        forall|p: int|
            1 <= p && p + 1 < marker_limit(tokens, sep) ==> (#[trigger] offsets[p]).1 <= offsets[p
                + 1].0,
    ensures
        ({
            let gs = decoded_groups(text, offsets, tokens, idxs, labels, sep);
            &&& forall|k: int| 0 <= k < gs.len() ==> (#[trigger] gs[k]).start <= gs[k].end
            &&& forall|k: int, l: int|
                0 <= k < l < gs.len() ==> (#[trigger] gs[k]).end <= (#[trigger] gs[l]).start
        }),
{
    let hi = marker_limit(tokens, sep);
    let gs = decoded_groups(text, offsets, tokens, idxs, labels, sep);
    if hi > 1 {
        assert(tokens.len() >= 2);
        lemma_marker_limit_ub(tokens, sep, 1);
        lemma_groups_from_props(text, offsets, idxs, labels, 1, 2, hi);
        lemma_groups_from_disjoint(text, offsets, idxs, labels, 1, 2, hi);
        assert forall|k: int, l: int|
            0 <= k < l < gs.len() implies (#[trigger] gs[k]).end <= (#[trigger] gs[l]).start by {
            lemma_ordered_chain(gs, k, l);
        }
    }
}

/// Span correctness: every decoded group's text is exactly the slice of the
/// source text between its start and end offsets.
pub proof fn lemma_span_correctness(
    text: Seq<char>,
    offsets: Seq<(usize, usize)>,
    tokens: Seq<Option<String>>,
    idxs: Seq<u32>,
    labels: Seq<String>,
    sep: Seq<char>,
)
    requires
        wf_decode_input(text, offsets, tokens, idxs, sep),
    ensures
        ({
            let gs = decoded_groups(text, offsets, tokens, idxs, labels, sep);
            forall|k: int|
                0 <= k < gs.len() ==> (#[trigger] gs[k]).text == text.subrange(
                    gs[k].start,
                    gs[k].end,
                )
        }),
{
    let hi = marker_limit(tokens, sep);
    if hi > 1 {
        assert(tokens.len() >= 2);
        lemma_marker_limit_ub(tokens, sep, 1);
        lemma_groups_from_props(text, offsets, idxs, labels, 1, 2, hi);
    }
}

/// Group counting: each splitting position opens exactly one fresh group,
/// and nothing else does, so the number of decoded groups is one more than
/// the number of splitting positions.
pub proof fn lemma_group_count(
    text: Seq<char>,
    offsets: Seq<(usize, usize)>,
    tokens: Seq<Option<String>>,
    idxs: Seq<u32>,
    labels: Seq<String>,
    sep: Seq<char>,
)
    requires
        wf_decode_input(text, offsets, tokens, idxs, sep),
        marker_limit(tokens, sep) > 1,
    ensures
        decoded_groups(text, offsets, tokens, idxs, labels, sep).len() == 1 + count_splits(
            idxs,
            labels,
            2,
            marker_limit(tokens, sep),
        ),
{
    let hi = marker_limit(tokens, sep);
    assert(tokens.len() >= 2);
    lemma_marker_limit_ub(tokens, sep, 1);
    lemma_groups_from_props(text, offsets, idxs, labels, 1, 2, hi);
}

/// Merge law: when every decoded token parses to one entity type and none
/// after the first parses as a Begin tag, exactly one group is emitted. It
/// spans from the first decoded token's start offset to the last one's end
/// offset and carries the common entity type.
pub proof fn lemma_merge_run(
    text: Seq<char>,
    offsets: Seq<(usize, usize)>,
    tokens: Seq<Option<String>>,
    idxs: Seq<u32>,
    labels: Seq<String>,
    sep: Seq<char>,
)
    requires
        wf_decode_input(text, offsets, tokens, idxs, sep),
        marker_limit(tokens, sep) > 1,
        forall|j: int|
            2 <= j < marker_limit(tokens, sep) ==> spec_label_type(
                #[trigger] label_at(idxs, labels, j),
            ) == spec_label_type(label_at(idxs, labels, j - 1)) && !spec_is_begin_label(
                label_at(idxs, labels, j),
            ),
    ensures
        ({
            let gs = decoded_groups(text, offsets, tokens, idxs, labels, sep);
            let hi = marker_limit(tokens, sep);
            &&& gs.len() == 1
            &&& gs[0].start == offsets[1].0 as int
            &&& gs[0].end == offsets[hi - 1].1 as int
            &&& gs[0].typ == spec_label_type(label_at(idxs, labels, hi - 1))
            &&& gs[0].text == text.subrange(offsets[1].0 as int, offsets[hi - 1].1 as int)
        }),
{
    let hi = marker_limit(tokens, sep);
    assert forall|j: int| 2 <= j < hi implies !(#[trigger] splits_at(idxs, labels, j)) by {}
    lemma_no_split_single(text, offsets, idxs, labels, 1, 2, hi);
}

/// Begin forces a split: a Begin tag at a decoded position closes the group
/// before it, whatever the types, so the tokens on either side of that
/// position always land in two different groups.
pub proof fn lemma_begin_forces_split(
    text: Seq<char>,
    offsets: Seq<(usize, usize)>,
    tokens: Seq<Option<String>>,
    idxs: Seq<u32>,
    labels: Seq<String>,
    sep: Seq<char>,
    j: int,
)
    requires
        wf_decode_input(text, offsets, tokens, idxs, sep),
        1 < j < marker_limit(tokens, sep),
        spec_is_begin_label(label_at(idxs, labels, j)),
    ensures
        ({
            let gs = decoded_groups(text, offsets, tokens, idxs, labels, sep);
            &&& gs.len() >= 2
            &&& exists|k: int| boundary_between(gs, offsets, j, k)
        }),
{
    let hi = marker_limit(tokens, sep);
    let gs = decoded_groups(text, offsets, tokens, idxs, labels, sep);
    assert(tokens.len() >= 2);
    lemma_marker_limit_ub(tokens, sep, 1);
    lemma_groups_from_props(text, offsets, idxs, labels, 1, 2, hi);
    assert(splits_at(idxs, labels, j));
    let k0 = choose|k0: int| boundary_between(gs, offsets, j, k0);
    assert(gs.len() >= 2);
}

/// Truncation: decoding stops at the first end-of-sequence marker, so the
/// marker position and everything after it produce no group: every group
/// ends no later than the token just before the marker.
pub proof fn lemma_truncation(
    text: Seq<char>,
    offsets: Seq<(usize, usize)>,
    tokens: Seq<Option<String>>,
    idxs: Seq<u32>,
    labels: Seq<String>,
    sep: Seq<char>,
    m: int,
)
    requires
        wf_decode_input(text, offsets, tokens, idxs, sep),
        1 <= m <= tokens.len() - 1,
        is_marker(tokens, sep, m),
        forall|j: int| 1 <= j < m ==> !is_marker(tokens, sep, j),
    ensures
        marker_limit(tokens, sep) == m,
        ({
            let gs = decoded_groups(text, offsets, tokens, idxs, labels, sep);
            &&& m == 1 ==> gs.len() == 0
            &&& forall|k: int|
                0 <= k < gs.len() ==> (#[trigger] gs[k]).end <= offsets[m - 1].1 as int
        }),
{
    let hi = marker_limit(tokens, sep);
    lemma_marker_limit_first(tokens, sep, 1, m);
    if hi > 1 {
        lemma_groups_from_props(text, offsets, idxs, labels, 1, 2, hi);
    }
}

/// Boundary exclusion: the first and the last token position are never
/// decoded, so every group lies inside the span of the decoded interior
/// tokens.
pub proof fn lemma_boundary_exclusion(
    text: Seq<char>,
    offsets: Seq<(usize, usize)>,
    tokens: Seq<Option<String>>,
    idxs: Seq<u32>,
    labels: Seq<String>,
    sep: Seq<char>,
)
    requires
        wf_decode_input(text, offsets, tokens, idxs, sep),
    ensures
        idxs.len() >= 2 ==> 1 <= marker_limit(tokens, sep) <= idxs.len() - 1,
        ({
            let gs = decoded_groups(text, offsets, tokens, idxs, labels, sep);
            let hi = marker_limit(tokens, sep);
            forall|k: int|
                0 <= k < gs.len() ==> offsets[1].0 as int <= (#[trigger] gs[k]).start
                    && gs[k].end <= offsets[hi - 1].1 as int
        }),
{
    let hi = marker_limit(tokens, sep);
    lemma_marker_limit_lb(tokens, sep, 1);
    if idxs.len() >= 2 {
        lemma_marker_limit_ub(tokens, sep, 1);
    }
    if hi > 1 {
        assert(tokens.len() >= 2);
        lemma_groups_from_props(text, offsets, idxs, labels, 1, 2, hi);
    }
}

} // verus!
