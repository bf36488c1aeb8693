//! What decides where a hunk goes, line by line.
use crate::absorb_laws;
use crate::header;
use crate::hunk;
use crate::hunk::HunkView;
use crate::route;
use crate::route::FactsView;
use vstd::prelude::*;

verus! {

// ---------------------------------------------------------------------------------------------
// Lines
// ---------------------------------------------------------------------------------------------

/// A line begins with this character.
pub open spec fn begins_with(line: Seq<char>, c: char) -> bool {
    line.len() > 0 && line[0] == c
}

/// How many lines begin with this character.
pub open spec fn count_of(lines: Seq<Seq<char>>, c: char) -> nat
    decreases lines.len(),
{
    if lines.len() == 0 {
        0
    } else {
        (if begins_with(lines[0], c) {
            1nat
        } else {
            0nat
        }) + count_of(lines.drop_first(), c)
    }
}

/// One more line at the end.
pub proof fn lemma_count_push(lines: Seq<Seq<char>>, line: Seq<char>, c: char)
    ensures
        count_of(lines.push(line), c) == count_of(lines, c) + if begins_with(line, c) {
            1nat
        } else {
            0nat
        },
    decreases lines.len(),
{
    let more = lines.push(line);
    if lines.len() == 0 {
        assert(more.drop_first() =~= Seq::empty());
        assert(count_of(more.drop_first(), c) == 0);
    } else {
        assert(more.drop_first() =~= lines.drop_first().push(line));
        lemma_count_push(lines.drop_first(), line, c);
    }
}

/// Every line is on the old side but the added ones, and on the new side but the removed ones.
pub proof fn law_sides_count(lines: Seq<Seq<char>>)
    ensures
        hunk::old_side(lines).len() + count_of(lines, '+') == lines.len(),
        hunk::new_side(lines).len() + count_of(lines, '-') == lines.len(),
    decreases lines.len(),
{
    if lines.len() > 0 {
        let front = lines.drop_last();
        law_sides_count(front);
        assert(lines =~= front.push(lines.last()));
        lemma_count_push(front, lines.last(), '+');
        lemma_count_push(front, lines.last(), '-');
    }
}

// ---------------------------------------------------------------------------------------------
// Fingerprints
// ---------------------------------------------------------------------------------------------

/// The lines that begin with `+` or `-`, in order.
pub open spec fn changes_of(lines: Seq<Seq<char>>) -> Seq<Seq<char>>
    decreases lines.len(),
{
    if lines.len() == 0 {
        Seq::empty()
    } else if begins_with(lines[0], '+') || begins_with(lines[0], '-') {
        seq![lines[0]] + changes_of(lines.drop_first())
    } else {
        changes_of(lines.drop_first())
    }
}

/// Bodies one behind the other: their changes come one behind the other too, none is left out and
/// none is added.
pub proof fn law_fingerprints_add(whole: HunkView, front: HunkView, back: HunkView)
    requires
        whole.lines == front.lines + back.lines,
    ensures
        route::fingerprint(whole).change_lines == route::fingerprint(front).change_lines
            + route::fingerprint(back).change_lines,
{
    lemma_changes(whole.lines);
    lemma_changes(front.lines);
    lemma_changes(back.lines);
    lemma_changes_add(front.lines, back.lines);
}

/// The changes of two bodies, one behind the other.
proof fn lemma_changes_add(a: Seq<Seq<char>>, b: Seq<Seq<char>>)
    ensures
        changes_of(a + b) == changes_of(a) + changes_of(b),
    decreases a.len(),
{
    if a.len() == 0 {
        assert(a + b =~= b);
        assert(changes_of(a) + changes_of(b) =~= changes_of(b));
    } else {
        lemma_changes_add(a.drop_first(), b);
        assert((a + b).drop_first() =~= a.drop_first() + b);
        assert((a + b)[0] == a[0]);
        assert(changes_of(a + b) =~= changes_of(a) + changes_of(b));
    }
}

/// The changes that are kept are all that there are.
proof fn lemma_changes(lines: Seq<Seq<char>>)
    ensures
        route::change_lines(lines) == changes_of(lines),
        route::change_lines(lines).len() == count_of(lines, '+') + count_of(lines, '-'),
    decreases lines.len(),
{
    reveal(Seq::filter);
    if lines.len() > 0 {
        let front = lines.drop_last();
        let last = lines.last();
        lemma_changes(front);
        assert(lines =~= front + seq![last]);
        assert(lines =~= front.push(last));
        lemma_changes_add(front, seq![last]);
        lemma_count_push(front, last, '+');
        lemma_count_push(front, last, '-');
        let one = seq![last];
        assert(one.drop_first() =~= Seq::empty());
        assert(changes_of(one.drop_first()) == Seq::<Seq<char>>::empty());
        assert(route::change_lines(lines) =~= changes_of(lines));
    }
}

/// A fingerprint holds the path of the hunk and every line of it that begins with `+` or `-`, in
/// order.
pub proof fn law_fingerprint_holds_all_changes(h: HunkView)
    ensures
        route::fingerprint(h).file == h.file,
        route::fingerprint(h).change_lines == changes_of(h.lines),
        route::fingerprint(h).change_lines.len() == count_of(h.lines, '+') + count_of(h.lines, '-'),
        forall|i: int|
            0 <= i < h.lines.len() && (begins_with(h.lines[i], '+') || begins_with(h.lines[i], '-'))
                ==> route::fingerprint(h).change_lines.contains(#[trigger] h.lines[i]),
{
    lemma_changes(h.lines);
    assert forall|i: int|
        0 <= i < h.lines.len() && (begins_with(h.lines[i], '+') || begins_with(h.lines[i], '-'))
        implies route::fingerprint(h).change_lines.contains(#[trigger] h.lines[i]) by {
        lemma_changes_hold(h.lines, i);
    }
}

/// A change is among the changes.
proof fn lemma_changes_hold(lines: Seq<Seq<char>>, i: int)
    requires
        0 <= i < lines.len(),
        begins_with(lines[i], '+') || begins_with(lines[i], '-'),
    ensures
        changes_of(lines).contains(lines[i]),
    decreases lines.len(),
{
    let all = changes_of(lines);
    if i == 0 {
        assert(all[0] == lines[0]);
    } else {
        lemma_changes_hold(lines.drop_first(), i - 1);
        let rest = changes_of(lines.drop_first());
        assert(lines.drop_first()[i - 1] == lines[i]);
        let k = choose|k: int| 0 <= k < rest.len() && rest[k] == lines[i];
        if all.len() > rest.len() {
            assert(all[k + 1] == lines[i]);
        }
    }
}

/// Two hunks have the same fingerprint exactly where they are of the same file and change the same
/// lines in the same order.
pub proof fn law_same_fingerprint(a: HunkView, b: HunkView)
    ensures
        route::fingerprint(a) == route::fingerprint(b) <==> a.file == b.file && changes_of(a.lines)
            == changes_of(b.lines),
{
    lemma_changes(a.lines);
    lemma_changes(b.lines);
}

// ---------------------------------------------------------------------------------------------
// Routing
// ---------------------------------------------------------------------------------------------

/// Body line `i` removes a line of the file that the change `id` brought in, and `id` is one of the
/// ancestors. `start` is the number of the first line on the old side: every line of the body that
/// is not added is a line of the old file, and the annotations name a change for each of those.
pub open spec fn removes_line_of(
    lines: Seq<Seq<char>>,
    start: nat,
    annotations: Seq<Seq<char>>,
    ancestors: Seq<(Seq<char>, Seq<char>)>,
    i: int,
    id: Seq<char>,
) -> bool {
    let number = start + i - count_of(lines.take(i), '+');
    let at = if number == 0 {
        0
    } else {
        number - 1
    };
    &&& 0 <= i < lines.len()
    &&& begins_with(lines[i], '-')
    &&& at < annotations.len()
    &&& annotations[at] == id
    &&& exists|k: int| 0 <= k < ancestors.len() && (#[trigger] ancestors[k]).0 == id
}

/// The two ways to say where a removed line comes from agree.
proof fn lemma_removes_line_of(
    lines: Seq<Seq<char>>,
    start: nat,
    annotations: Seq<Seq<char>>,
    ancestors: Seq<(Seq<char>, Seq<char>)>,
    i: int,
    id: Seq<char>,
)
    ensures
        removes_line_of(lines, start, annotations, ancestors, i, id) == absorb_laws::comes_from(
            lines,
            start,
            annotations,
            ancestors,
            i,
            id,
        ),
{
    if 0 <= i < lines.len() {
        law_sides_count(lines.take(i));
    }
}

/// The hits of a body are the ancestors whose lines it removes, each once.
proof fn lemma_hits(
    lines: Seq<Seq<char>>,
    start: nat,
    annotations: Seq<Seq<char>>,
    ancestors: Seq<(Seq<char>, Seq<char>)>,
)
    ensures
        route::hits(lines, start, annotations, ancestors).no_duplicates(),
        forall|id: Seq<char>| #[trigger]
            route::hits(lines, start, annotations, ancestors).contains(id) <==> exists|i: int|
                removes_line_of(lines, start, annotations, ancestors, i, id),
{
    absorb_laws::law_hits(lines, start, annotations, ancestors);
    assert forall|id: Seq<char>| #[trigger]
        route::hits(lines, start, annotations, ancestors).contains(id) <==> exists|i: int|
            removes_line_of(lines, start, annotations, ancestors, i, id) by {
        if exists|i: int| absorb_laws::comes_from(lines, start, annotations, ancestors, i, id) {
            let i = choose|i: int|
                absorb_laws::comes_from(lines, start, annotations, ancestors, i, id);
            lemma_removes_line_of(lines, start, annotations, ancestors, i, id);
        }
        if exists|i: int| removes_line_of(lines, start, annotations, ancestors, i, id) {
            let i = choose|i: int| removes_line_of(lines, start, annotations, ancestors, i, id);
            lemma_removes_line_of(lines, start, annotations, ancestors, i, id);
        }
    }
}

/// What is known of a hunk: it is not of a new file, its annotations are there, and its `@@` line
/// says where it starts.
pub open spec fn is_known(hunk: HunkView, facts: FactsView, start: nat) -> bool {
    &&& hunk.old_file != "/dev/null"@ && hunk.old_file != "dev/null"@
    &&& facts.annotations is Some
    &&& header::header_starts(hunk.header) matches Some((old_start, _)) && old_start == start
}

/// Where all removed lines that come from ancestors come from one of them, and at least one does,
/// the hunk goes into that one, whatever else touched the file.
pub proof fn law_one_source_is_the_target(
    id: Seq<char>,
    hunk: HunkView,
    facts: FactsView,
    ancestors: Seq<(Seq<char>, Seq<char>)>,
    start: nat,
    source: Seq<char>,
    i: int,
)
    requires
        is_known(hunk, facts, start),
        removes_line_of(hunk.lines, start, facts.annotations->0, ancestors, i, source),
        forall|j: int, other: Seq<char>| #[trigger]
            removes_line_of(hunk.lines, start, facts.annotations->0, ancestors, j, other) ==> other
                == source,
    ensures
        ({
            let routing = route::route(id, hunk, facts, ancestors);
            &&& routing.target == Some(source)
            &&& routing.reason == "matched"@
            &&& routing.candidates.len() == 0
        }),
{
    let found = route::hits(hunk.lines, start, facts.annotations->0, ancestors);
    lemma_hits(hunk.lines, start, facts.annotations->0, ancestors);
    assert(found.contains(source));
    assert forall|k: int| 0 <= k < found.len() implies #[trigger] found[k] == source by {
        assert(found.contains(found[k]));
        let j = choose|j: int|
            removes_line_of(hunk.lines, start, facts.annotations->0, ancestors, j, found[k]);
        assert(removes_line_of(
            hunk.lines,
            start,
            facts.annotations->0,
            ancestors,
            j,
            found[k],
        ));
    }
    if found.len() > 1 {
        assert(found[0] == found[1]);
    }
}

/// Where no removed line comes from an ancestor, the hunk goes into the first that touched the
/// file; where none did, or that is not known, it stays. The same holds of a hunk whose `@@` line
/// does not say where it starts.
pub proof fn law_no_source_falls_back(
    id: Seq<char>,
    hunk: HunkView,
    facts: FactsView,
    ancestors: Seq<(Seq<char>, Seq<char>)>,
    start: nat,
)
    requires
        is_known(hunk, facts, start) || (hunk.old_file != "/dev/null"@ && hunk.old_file
            != "dev/null"@ && facts.annotations is Some && header::header_starts(hunk.header)
            is None),
        is_known(hunk, facts, start) ==> forall|j: int, other: Seq<char>|
            !#[trigger] removes_line_of(
                hunk.lines,
                start,
                facts.annotations->0,
                ancestors,
                j,
                other,
            ),
    ensures
        ({
            let routing = route::route(id, hunk, facts, ancestors);
            &&& routing.candidates.len() == 0
            &&& facts.touched_by is Some && facts.touched_by->0.len() > 0 ==> routing.target
                == Some(facts.touched_by->0[0]) && routing.reason == "matched (file)"@
            &&& facts.touched_by is None || facts.touched_by->0.len() == 0 ==> routing.target
                is None && routing.reason == "no overlapping ancestor hunk"@
        }),
{
    if is_known(hunk, facts, start) {
        let found = route::hits(hunk.lines, start, facts.annotations->0, ancestors);
        lemma_hits(hunk.lines, start, facts.annotations->0, ancestors);
        if found.len() > 0 {
            assert(found.contains(found[0]));
            let j = choose|j: int|
                removes_line_of(hunk.lines, start, facts.annotations->0, ancestors, j, found[0]);
            assert(removes_line_of(
                hunk.lines,
                start,
                facts.annotations->0,
                ancestors,
                j,
                found[0],
            ));
        }
    }
}

/// Where removed lines come from several ancestors, the hunk stays, and the candidates are exactly
/// those ancestors, each once, in the order in which their lines come up, whatever else touched the
/// file.
pub proof fn law_several_sources_are_candidates(
    id: Seq<char>,
    hunk: HunkView,
    facts: FactsView,
    ancestors: Seq<(Seq<char>, Seq<char>)>,
    start: nat,
    a: Seq<char>,
    b: Seq<char>,
    i: int,
    j: int,
)
    requires
        is_known(hunk, facts, start),
        removes_line_of(hunk.lines, start, facts.annotations->0, ancestors, i, a),
        removes_line_of(hunk.lines, start, facts.annotations->0, ancestors, j, b),
        a != b,
    ensures
        ({
            let routing = route::route(id, hunk, facts, ancestors);
            &&& routing.target is None
            &&& routing.reason == "ambiguous"@
            &&& routing.candidates.no_duplicates()
            &&& forall|other: Seq<char>| #[trigger]
                routing.candidates.contains(other) <==> exists|k: int|
                    removes_line_of(
                        hunk.lines,
                        start,
                        facts.annotations->0,
                        ancestors,
                        k,
                        other,
                    )
            &&& forall|p: int, q: int|
                0 <= p < q < routing.candidates.len() ==> comes_up_first(
                    hunk.lines,
                    start,
                    facts.annotations->0,
                    ancestors,
                    #[trigger] routing.candidates[p],
                    #[trigger] routing.candidates[q],
                )
        }),
{
    let annotations = facts.annotations->0;
    let found = route::hits(hunk.lines, start, annotations, ancestors);
    lemma_hits(hunk.lines, start, annotations, ancestors);
    assert(found.contains(a) && found.contains(b));
    let p = choose|p: int| 0 <= p < found.len() && found[p] == a;
    let q = choose|q: int| 0 <= q < found.len() && found[q] == b;
    assert(p != q);
    assert(found.len() > 1);
    lemma_hits_in_order(hunk.lines, start, annotations, ancestors);
}

/// A removed line that comes from `a` stands in front of all those that come from `b`.
pub open spec fn comes_up_first(
    lines: Seq<Seq<char>>,
    start: nat,
    annotations: Seq<Seq<char>>,
    ancestors: Seq<(Seq<char>, Seq<char>)>,
    a: Seq<char>,
    b: Seq<char>,
) -> bool {
    exists|i: int|
        {
            &&& #[trigger] removes_line_of(lines, start, annotations, ancestors, i, a)
            &&& forall|j: int| #[trigger]
                removes_line_of(lines, start, annotations, ancestors, j, b) ==> i < j
        }
}

/// A line of the front part comes from the same ancestor in the whole.
proof fn lemma_front_part(
    lines: Seq<Seq<char>>,
    start: nat,
    annotations: Seq<Seq<char>>,
    ancestors: Seq<(Seq<char>, Seq<char>)>,
    i: int,
    id: Seq<char>,
)
    requires
        lines.len() > 0,
        i < lines.len() - 1,
    ensures
        removes_line_of(lines, start, annotations, ancestors, i, id) == removes_line_of(
            lines.drop_last(),
            start,
            annotations,
            ancestors,
            i,
            id,
        ),
{
    if 0 <= i {
        assert(lines.take(i) =~= lines.drop_last().take(i));
    }
}

/// Hits come in the order of the lines.
proof fn lemma_hits_in_order(
    lines: Seq<Seq<char>>,
    start: nat,
    annotations: Seq<Seq<char>>,
    ancestors: Seq<(Seq<char>, Seq<char>)>,
)
    ensures
        ({
            let found = route::hits(lines, start, annotations, ancestors);
            forall|p: int, q: int|
                0 <= p < q < found.len() ==> comes_up_first(
                    lines,
                    start,
                    annotations,
                    ancestors,
                    #[trigger] found[p],
                    #[trigger] found[q],
                )
        }),
    decreases lines.len(),
{
    if lines.len() > 0 {
        let front = lines.drop_last();
        let last = lines.len() - 1;
        let before = route::hits(front, start, annotations, ancestors);
        let found = route::hits(lines, start, annotations, ancestors);
        lemma_hits_in_order(front, start, annotations, ancestors);
        lemma_hits(front, start, annotations, ancestors);
        assert forall|p: int, q: int| 0 <= p < q < found.len() implies comes_up_first(
            lines,
            start,
            annotations,
            ancestors,
            #[trigger] found[p],
            #[trigger] found[q],
        ) by {
            assert(found[p] == before[p]);
            assert(before.contains(before[p]));
            let i = if q < before.len() {
                assert(found[q] == before[q]);
                assert(comes_up_first(
                    front,
                    start,
                    annotations,
                    ancestors,
                    before[p],
                    before[q],
                ));
                choose|i: int|
                    {
                        &&& #[trigger] removes_line_of(
                            front,
                            start,
                            annotations,
                            ancestors,
                            i,
                            before[p],
                        )
                        &&& forall|j: int| #[trigger]
                            removes_line_of(front, start, annotations, ancestors, j, before[q])
                                ==> i < j
                    }
            } else {
                choose|i: int|
                    removes_line_of(front, start, annotations, ancestors, i, before[p])
            };
            lemma_front_part(lines, start, annotations, ancestors, i, found[p]);
            assert forall|j: int| #[trigger]
                removes_line_of(lines, start, annotations, ancestors, j, found[q]) implies i
                < j by {
                if j < last {
                    lemma_front_part(lines, start, annotations, ancestors, j, found[q]);
                    if q >= before.len() {
                        assert(before.contains(found[q]));
                    }
                }
            }
        }
    }
}

/// A hunk of a new file stays, and so does one of a file whose annotations could not be had,
/// whatever touched the file.
pub proof fn law_unknown_hunks_stay(
    id: Seq<char>,
    hunk: HunkView,
    facts: FactsView,
    ancestors: Seq<(Seq<char>, Seq<char>)>,
)
    ensures
        ({
            let routing = route::route(id, hunk, facts, ancestors);
            let is_new = hunk.old_file == "/dev/null"@ || hunk.old_file == "dev/null"@;
            &&& is_new ==> routing.target is None && routing.reason == "new file"@
                && routing.candidates.len() == 0
            &&& !is_new && facts.annotations is None ==> routing.target is None && routing.reason
                == "annotation failed"@ && routing.candidates.len() == 0
        }),
{
}

/// A routing names its hunk and counts the lines that begin with `+` and those that begin with
/// `-`.
pub proof fn law_routing_describes_its_hunk(
    id: Seq<char>,
    hunk: HunkView,
    facts: FactsView,
    ancestors: Seq<(Seq<char>, Seq<char>)>,
)
    ensures
        ({
            let routing = route::route(id, hunk, facts, ancestors);
            &&& routing.hunk_id == id
            &&& routing.file == hunk.file
            &&& routing.additions == count_of(hunk.lines, '+')
            &&& routing.deletions == count_of(hunk.lines, '-')
        }),
{
    lemma_added_and_removed(hunk.lines);
}

/// Added and removed lines are counted.
proof fn lemma_added_and_removed(lines: Seq<Seq<char>>)
    ensures
        route::added_lines(lines).len() == count_of(lines, '+'),
        route::removed_lines(lines).len() == count_of(lines, '-'),
    decreases lines.len(),
{
    reveal(Seq::filter);
    if lines.len() > 0 {
        let front = lines.drop_last();
        lemma_added_and_removed(front);
        assert(lines =~= front.push(lines.last()));
        lemma_count_push(front, lines.last(), '+');
        lemma_count_push(front, lines.last(), '-');
    }
}

/// The facts on a file are the first that are given for it; where none are, nothing is known.
pub proof fn law_first_facts_count(facts: Seq<FactsView>, file: Seq<char>)
    ensures
        forall|i: int|
            0 <= i < facts.len() && (#[trigger] facts[i]).file == file && (forall|j: int|
                0 <= j < i ==> (#[trigger] facts[j]).file != file) ==> route::facts_on(facts, file)
                == facts[i],
        (forall|i: int| 0 <= i < facts.len() ==> (#[trigger] facts[i]).file != file)
            ==> route::facts_on(facts, file).annotations is None && route::facts_on(
            facts,
            file,
        ).touched_by is None,
    decreases facts.len(),
{
    if facts.len() > 0 {
        let rest = facts.drop_first();
        law_first_facts_count(rest, file);
        assert forall|i: int|
            0 <= i < facts.len() && (#[trigger] facts[i]).file == file && (forall|j: int|
                0 <= j < i ==> (#[trigger] facts[j]).file != file) implies route::facts_on(
            facts,
            file,
        ) == facts[i] by {
            if i > 0 {
                assert(facts[0].file != file);
                assert(rest[i - 1] == facts[i]);
                assert forall|j: int| 0 <= j < i - 1 implies (#[trigger] rest[j]).file != file by {
                    assert(rest[j] == facts[j + 1]);
                }
            }
        }
        if forall|i: int| 0 <= i < facts.len() ==> (#[trigger] facts[i]).file != file {
            assert(facts[0].file != file);
            assert forall|i: int| 0 <= i < rest.len() implies (#[trigger] rest[i]).file != file by {
                assert(rest[i] == facts[i + 1]);
            }
        }
    }
}

/// Hunks are routed one by one, in order: each by the facts on its own file, with its own
/// fingerprint, and whatever other hunks there are.
pub proof fn law_routes_add(
    a: Seq<(Seq<char>, HunkView)>,
    b: Seq<(Seq<char>, HunkView)>,
    facts: Seq<FactsView>,
    ancestors: Seq<(Seq<char>, Seq<char>)>,
)
    ensures
        route::routes(a + b, facts, ancestors) == route::routes(a, facts, ancestors)
            + route::routes(b, facts, ancestors),
        forall|i: int|
            0 <= i < a.len() ==> {
                let (routing, fingerprint) = #[trigger] route::routes(a, facts, ancestors)[i];
                let (id, hunk) = a[i];
                &&& routing == route::route(id, hunk, route::facts_on(facts, hunk.file), ancestors)
                &&& fingerprint.file == hunk.file
                &&& fingerprint.change_lines == changes_of(hunk.lines)
            },
        route::routes(a, facts, ancestors).len() == a.len(),
{
    assert(route::routes(a + b, facts, ancestors) =~= route::routes(a, facts, ancestors)
        + route::routes(b, facts, ancestors));
    assert forall|i: int| 0 <= i < a.len() implies ({
        let (routing, fingerprint) = #[trigger] route::routes(a, facts, ancestors)[i];
        let (id, hunk) = a[i];
        &&& routing == route::route(id, hunk, route::facts_on(facts, hunk.file), ancestors)
        &&& fingerprint.file == hunk.file
        &&& fingerprint.change_lines == changes_of(hunk.lines)
    }) by {
        lemma_changes(a[i].1.lines);
    }
}

/// Without ancestors nothing is asked and nothing is absorbed; with any, all files are asked about.
pub proof fn law_ancestors_are_needed(
    selected: Seq<(Seq<char>, HunkView)>,
    ancestors: Seq<(Seq<char>, Seq<char>)>,
)
    ensures
        route::files_asked_about(selected, ancestors) is Some <==> ancestors.len() > 0,
        route::files_asked_about(selected, ancestors) matches Some(files) ==> files
            == route::files_to_annotate(selected),
{
}

/// The file of a hunk that is not new.
pub open spec fn has_old_file(hunk: HunkView, file: Seq<char>) -> bool {
    hunk.file == file && hunk.old_file != "/dev/null"@ && hunk.old_file != "dev/null"@
}

/// The files to annotate are those of the hunks that are not of new files, each once, in the order
/// in which they come up.
pub proof fn law_files_to_annotate(selected: Seq<(Seq<char>, HunkView)>, n: int)
    requires
        0 <= n <= selected.len(),
    ensures
        route::files_to_annotate(selected).no_duplicates(),
        forall|file: Seq<char>| #[trigger]
            route::files_to_annotate(selected).contains(file) <==> exists|i: int|
                0 <= i < selected.len() && has_old_file((#[trigger] selected[i]).1, file),
        route::files_to_annotate(selected.take(n)).is_prefix_of(
            route::files_to_annotate(selected),
        ),
    decreases selected.len(),
{
    let after = route::files_to_annotate(selected);
    if selected.len() == 0 {
        assert(selected.take(n) =~= selected);
    } else {
        let front = selected.drop_last();
        let last = selected.len() - 1;
        let before = route::files_to_annotate(front);
        law_files_to_annotate(front, if n <= front.len() {
            n
        } else {
            0
        });
        if n <= front.len() {
            assert(front.take(n) =~= selected.take(n));
        } else {
            assert(selected.take(n) =~= selected);
        }
        assert forall|file: Seq<char>| #[trigger] after.contains(file) <==> exists|i: int|
            0 <= i < selected.len() && has_old_file((#[trigger] selected[i]).1, file) by {
            assert(before.contains(file) <==> exists|i: int|
                0 <= i < front.len() && has_old_file((#[trigger] front[i]).1, file));
            if after.contains(file) {
                let k = choose|k: int| 0 <= k < after.len() && after[k] == file;
                if k < before.len() {
                    assert(before[k] == file);
                    let i = choose|i: int|
                        0 <= i < front.len() && has_old_file((#[trigger] front[i]).1, file);
                    assert(has_old_file(selected[i].1, file));
                } else {
                    assert(has_old_file(selected[last].1, file));
                }
            }
            if exists|i: int|
                0 <= i < selected.len() && has_old_file((#[trigger] selected[i]).1, file) {
                let i = choose|i: int|
                    0 <= i < selected.len() && has_old_file((#[trigger] selected[i]).1, file);
                if i < last {
                    assert(has_old_file(front[i].1, file));
                    let k = choose|k: int| 0 <= k < before.len() && before[k] == file;
                    assert(after[k] == file);
                } else if before.contains(file) {
                    let k = choose|k: int| 0 <= k < before.len() && before[k] == file;
                    assert(after[k] == file);
                } else {
                    assert(after[before.len() as int] == file);
                }
            }
        }
    }
}

} // verus!
