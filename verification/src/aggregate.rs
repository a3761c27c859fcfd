//! The result aggregator: converts raw match records into display results
//! (a stable identifier, a rendered excerpt or diff), groups them by file,
//! orders each file's results by byte start and the files by name.

use crate::bytes::{
    bytes_eq, bytes_lt, clone_bytes, dec_digits, lemma_lex_asym, lemma_lex_irrefl, lemma_lex_total,
    lemma_split_nl_count, lex_lt, replace_first, replace_first_spec, split_lines, split_nl, u32_dec,
};
use crate::diff::{changes_formatted, diff_lines, format_changes, line_diff_of};
use crate::records::{
    FileGroup, FormattedLine, GroupView, ItemView, LineView, RecordView, SgGuiResultItem,
    SgResultRaw,
};
use vstd::prelude::*;

verus! {

/// The stable identifier of a match: file path, byte start and byte end in
/// decimal, joined by colons.
pub open spec fn item_id(file: Seq<u8>, bs: u32, be: u32) -> Seq<u8> {
    file + seq![58u8] + dec_digits(bs as nat) + seq![58u8] + dec_digits(be as nat)
}

/// The proposed replacement's bytes; empty when none is proposed.
pub open spec fn repl_of(r: RecordView) -> Seq<u8> {
    match r.replacement {
        Some(s) => s,
        None => Seq::empty(),
    }
}

/// The excerpt's lines rendered without a diff: one line per piece, numbered
/// from `first`, no marker and no after-line.
pub open spec fn plain_lines(pieces: Seq<Seq<u8>>, first: int) -> Seq<LineView> {
    Seq::new(
        pieces.len(),
        |i: int| LineView { bln: Some(first + i), aln: None, sign: None, val: pieces[i] },
    )
}

/// The rendered lines of one record: a plain excerpt when no replacement is
/// proposed, else a line diff between the excerpt and the excerpt with the
/// matched text's first occurrence replaced.
pub open spec fn formatted_of(r: RecordView) -> Seq<LineView> {
    let first = r.range.start.line + 1;
    match r.replacement {
        None => plain_lines(split_nl(r.lines), first),
        Some(rep) => changes_formatted(
            line_diff_of(r.lines, replace_first_spec(r.lines, r.text, rep)),
            first,
        ),
    }
}

/// The display result of one record.
pub open spec fn item_of(r: RecordView) -> ItemView {
    ItemView {
        id: item_id(r.file, r.range.byte_offset.start, r.range.byte_offset.end),
        formatted_lines: formatted_of(r),
        file: r.file,
        replacement: repl_of(r),
        byte_start: r.range.byte_offset.start,
        byte_end: r.range.byte_offset.end,
    }
}

/// The record's line numbers stay within the machine's range: the first
/// line number plus the excerpt's and replacement's lengths fits.
pub open spec fn record_wf(r: RecordView) -> bool {
    r.range.start.line + 1 + r.lines.len() + repl_of(r).len() <= usize::MAX
}

/// Converts one raw record into its display result.
pub fn convert_record(rec: &SgResultRaw) -> (r: SgGuiResultItem)
    requires
        record_wf(rec@),
    ensures
        r@ == item_of(rec@),
{
    let mut id = clone_bytes(&rec.file);
    id.push(58);
    let mut d1 = u32_dec(rec.range.byte_offset.start);
    id.append(&mut d1);
    id.push(58);
    let mut d2 = u32_dec(rec.range.byte_offset.end);
    id.append(&mut d2);
    proof {
        assert(id@ =~= item_id(rec@.file, rec@.range.byte_offset.start, rec@.range.byte_offset.end));
    }
    let first: usize = rec.range.start.line + 1;
    let formatted_lines: Vec<FormattedLine> = match rec.replacement {
        None => {
            let pieces = split_lines(rec.lines.as_slice());
            proof {
                lemma_split_nl_count(rec@.lines);
            }
            let mut out: Vec<FormattedLine> = Vec::new();
            let mut i: usize = 0;
            while i < pieces.len()
                invariant
                    i <= pieces@.len(),
                    pieces.deep_view() == split_nl(rec@.lines),
                    pieces.deep_view().len() == pieces@.len(),
                    first + pieces@.len() <= usize::MAX as int + 1,
                    out.deep_view().len() == i,
                    forall|j: int|
                        0 <= j < i ==> out.deep_view()[j] == plain_lines(
                            split_nl(rec@.lines),
                            first as int,
                        )[j],
                decreases pieces@.len() - i,
            {
                let val = clone_bytes(&pieces[i]);
                let ghost prev = out.deep_view();
                let line = FormattedLine { bln: Some(first + i), aln: None, sign: None, val };
                out.push(line);
                proof {
                    assert(out.deep_view() =~= prev.push(line@));
                    assert(pieces@[i as int].deep_view() =~= pieces@[i as int]@);
                    assert(out.deep_view()[i as int] == plain_lines(
                        split_nl(rec@.lines),
                        first as int,
                    )[i as int]);
                }
                i = i + 1;
            }
            proof {
                assert(out.deep_view() =~= plain_lines(split_nl(rec@.lines), first as int));
            }
            out
        },
        Some(ref rep) => {
            let replaced = replace_first(&rec.lines, &rec.text, rep);
            let changes = diff_lines(&rec.lines, &replaced);
            format_changes(&changes, first)
        },
    };
    let replacement: Vec<u8> = match rec.replacement {
        Some(ref r) => clone_bytes(r),
        None => Vec::new(),
    };
    proof {
        assert(replacement@ =~= repl_of(rec@));
    }
    let item = SgGuiResultItem {
        id,
        formatted_lines,
        file: clone_bytes(&rec.file),
        replacement,
        byte_start: rec.range.byte_offset.start,
        byte_end: rec.range.byte_offset.end,
    };
    proof {
        assert(item@.formatted_lines =~= formatted_of(rec@));
    }
    item
}

/// `rs` with `it` inserted after every result whose byte start is not
/// greater: results of one file stay ascending by byte start, and of two
/// results with one byte start the earlier-converted one stays first.
pub open spec fn insert_by_start(rs: Seq<ItemView>, it: ItemView) -> Seq<ItemView>
    decreases rs.len(),
{
    if rs.len() == 0 {
        seq![it]
    } else if it.byte_start < rs[0].byte_start {
        seq![it] + rs
    } else {
        seq![rs[0]] + insert_by_start(rs.drop_first(), it)
    }
}

/// The groups with `it` added: into its file's group when one exists, else
/// as a new group placed so that files stay in ascending order.
pub open spec fn add_item(gs: Seq<GroupView>, it: ItemView) -> Seq<GroupView>
    decreases gs.len(),
{
    if gs.len() == 0 {
        seq![(GroupView { file: it.file, results: seq![it] })]
    } else if lex_lt(it.file, gs[0].file) {
        seq![(GroupView { file: it.file, results: seq![it] })] + gs
    } else if it.file == gs[0].file {
        seq![(GroupView { file: gs[0].file, results: insert_by_start(gs[0].results, it) })]
            + gs.drop_first()
    } else {
        seq![gs[0]] + add_item(gs.drop_first(), it)
    }
}

/// The fully aggregated result set: every record converted and added, in
/// input order.
pub open spec fn aggregate_spec(rs: Seq<RecordView>) -> Seq<GroupView>
    decreases rs.len(),
{
    if rs.len() == 0 {
        Seq::empty()
    } else {
        add_item(aggregate_spec(rs.drop_last()), item_of(rs.last()))
    }
}

/// `insert_by_start` inserts exactly at the first position whose byte start
/// is greater.
proof fn lemma_insert_by_start_at(rs: Seq<ItemView>, it: ItemView, k: int)
    requires
        0 <= k <= rs.len(),
        forall|j: int| 0 <= j < k ==> !(it.byte_start < rs[j].byte_start),
        k < rs.len() ==> it.byte_start < rs[k].byte_start,
    ensures
        insert_by_start(rs, it) == rs.take(k) + seq![it] + rs.skip(k),
    decreases rs.len(),
{
    if rs.len() == 0 {
        assert(insert_by_start(rs, it) =~= rs.take(k) + seq![it] + rs.skip(k));
    } else if k == 0 {
        assert(rs.take(0) + seq![it] + rs.skip(0) =~= seq![it] + rs);
    } else {
        assert forall|j: int| 0 <= j < k - 1 implies !(it.byte_start
            < rs.drop_first()[j].byte_start) by {
            assert(rs.drop_first()[j] == rs[j + 1]);
        }
        if k - 1 < rs.drop_first().len() {
            assert(rs.drop_first()[k - 1] == rs[k]);
        }
        lemma_insert_by_start_at(rs.drop_first(), it, k - 1);
        assert(seq![rs[0]] + (rs.drop_first().take(k - 1) + seq![it] + rs.drop_first().skip(k - 1))
            =~= rs.take(k) + seq![it] + rs.skip(k));
    }
}

/// `add_item` lands exactly at the first group whose file is not below the
/// item's: merged when the files are equal, a new group otherwise.
proof fn lemma_add_item_at(gs: Seq<GroupView>, it: ItemView, g: int)
    requires
        0 <= g <= gs.len(),
        forall|j: int| 0 <= j < g ==> lex_lt(gs[j].file, it.file),
        g < gs.len() ==> !lex_lt(gs[g].file, it.file),
    ensures
        g < gs.len() && gs[g].file == it.file ==> add_item(gs, it) == gs.update(
            g,
            (GroupView { file: gs[g].file, results: insert_by_start(gs[g].results, it) }),
        ),
        !(g < gs.len() && gs[g].file == it.file) ==> add_item(gs, it) == gs.take(g) + seq![
            (GroupView { file: it.file, results: seq![it] }),
        ] + gs.skip(g),
    decreases gs.len(),
{
    if gs.len() == 0 {
        assert(add_item(gs, it) =~= gs.take(g) + seq![
            (GroupView { file: it.file, results: seq![it] }),
        ] + gs.skip(g));
    } else if g == 0 {
        if gs[0].file == it.file {
            lemma_lex_irrefl(it.file);
            assert(seq![(GroupView { file: gs[0].file, results: insert_by_start(gs[0].results, it) })]
                + gs.drop_first() =~= gs.update(
                0,
                (GroupView { file: gs[0].file, results: insert_by_start(gs[0].results, it) }),
            ));
        } else {
            lemma_lex_total(it.file, gs[0].file);
            assert(lex_lt(it.file, gs[0].file));
            assert(gs.take(0) + seq![(GroupView { file: it.file, results: seq![it] })] + gs.skip(0)
                =~= seq![(GroupView { file: it.file, results: seq![it] })] + gs);
        }
    } else {
        lemma_lex_asym(gs[0].file, it.file);
        lemma_lex_irrefl(it.file);
        assert(gs[0].file != it.file);
        assert forall|j: int| 0 <= j < g - 1 implies lex_lt(gs.drop_first()[j].file, it.file) by {
            assert(gs.drop_first()[j] == gs[j + 1]);
        }
        if g - 1 < gs.drop_first().len() {
            assert(gs.drop_first()[g - 1] == gs[g]);
        }
        lemma_add_item_at(gs.drop_first(), it, g - 1);
        if g < gs.len() && gs[g].file == it.file {
            assert(seq![gs[0]] + gs.drop_first().update(
                g - 1,
                (GroupView { file: gs[g].file, results: insert_by_start(gs[g].results, it) }),
            ) =~= gs.update(
                g,
                (GroupView { file: gs[g].file, results: insert_by_start(gs[g].results, it) }),
            ));
        } else {
            assert(seq![gs[0]] + (gs.drop_first().take(g - 1) + seq![
                (GroupView { file: it.file, results: seq![it] }),
            ] + gs.drop_first().skip(g - 1)) =~= gs.take(g) + seq![
                (GroupView { file: it.file, results: seq![it] }),
            ] + gs.skip(g));
        }
    }
}

/// Inserts `it` into `rs` keeping ascending byte starts.
fn insert_result(rs: &mut Vec<SgGuiResultItem>, it: SgGuiResultItem)
    ensures
        final(rs).deep_view() == insert_by_start(old(rs).deep_view(), it@),
{
    let mut k: usize = 0;
    while k < rs.len()
        invariant
            k <= rs@.len(),
            rs@ == old(rs)@,
            forall|j: int| 0 <= j < k ==> !(it@.byte_start < rs.deep_view()[j].byte_start),
        ensures
            k <= rs@.len(),
            rs@ == old(rs)@,
            forall|j: int| 0 <= j < k ==> !(it@.byte_start < rs.deep_view()[j].byte_start),
            k < rs@.len() ==> it@.byte_start < rs.deep_view()[k as int].byte_start,
        decreases rs@.len() - k,
    {
        proof {
            assert(rs.deep_view()[k as int] == rs@[k as int]@);
        }
        if it.byte_start < rs[k].byte_start {
            break;
        }
        k = k + 1;
    }
    proof {
        lemma_insert_by_start_at(rs.deep_view(), it@, k as int);
    }
    let ghost pre = rs.deep_view();
    rs.insert(k, it);
    proof {
        assert(rs.deep_view() =~= pre.take(k as int) + seq![it@] + pre.skip(k as int));
    }
}

/// Adds `it` to the groups, keeping files ascending and each file's results
/// ascending by byte start.
fn insert_item(groups: &mut Vec<FileGroup>, it: SgGuiResultItem)
    ensures
        final(groups).deep_view() == add_item(old(groups).deep_view(), it@),
{
    let mut g: usize = 0;
    while g < groups.len()
        invariant
            g <= groups@.len(),
            groups@ == old(groups)@,
            forall|j: int| 0 <= j < g ==> lex_lt(groups.deep_view()[j].file, it@.file),
        ensures
            g <= groups@.len(),
            groups@ == old(groups)@,
            forall|j: int| 0 <= j < g ==> lex_lt(groups.deep_view()[j].file, it@.file),
            g < groups@.len() ==> !lex_lt(groups.deep_view()[g as int].file, it@.file),
        decreases groups@.len() - g,
    {
        proof {
            assert(groups.deep_view()[g as int] == groups@[g as int]@);
        }
        if !bytes_lt(&groups[g].file, &it.file) {
            break;
        }
        g = g + 1;
    }
    proof {
        lemma_add_item_at(groups.deep_view(), it@, g as int);
    }
    let ghost pre = groups.deep_view();
    if g < groups.len() && bytes_eq(&groups[g].file, &it.file) {
        proof {
            assert(groups.deep_view()[g as int] == groups@[g as int]@);
        }
        let mut grp = groups.remove(g);
        insert_result(&mut grp.results, it);
        groups.insert(g, grp);
        proof {
            assert(groups.deep_view() =~= pre.update(
                g as int,
                (GroupView {
                    file: pre[g as int].file,
                    results: insert_by_start(pre[g as int].results, it@),
                }),
            ));
        }
    } else {
        proof {
            if g < groups@.len() {
                assert(groups.deep_view()[g as int] == groups@[g as int]@);
            }
        }
        let mut results: Vec<SgGuiResultItem> = Vec::new();
        results.push(it);
        let file = clone_bytes(&results[0].file);
        let grp = FileGroup { file, results };
        proof {
            assert(grp@.results =~= seq![it@]);
        }
        groups.insert(g, grp);
        proof {
            assert(groups.deep_view() =~= pre.take(g as int) + seq![
                (GroupView { file: it@.file, results: seq![it@] }),
            ] + pre.skip(g as int));
        }
    }
}

/// Aggregates raw match records into display results grouped by file:
/// groups ascend by file name, each file's results ascend by byte start,
/// and the whole output is a function of the input records alone.
pub fn aggregate_results(records: Vec<SgResultRaw>) -> (r: Vec<FileGroup>)
    requires
        forall|i: int| 0 <= i < records@.len() ==> record_wf(#[trigger] records.deep_view()[i]),
    ensures
        r.deep_view() == aggregate_spec(records.deep_view()),
{
    let mut groups: Vec<FileGroup> = Vec::new();
    let mut i: usize = 0;
    proof {
        assert(groups.deep_view() =~= Seq::<GroupView>::empty());
        assert(records.deep_view().take(0) =~= Seq::<RecordView>::empty());
    }
    while i < records.len()
        invariant
            i <= records@.len(),
            records.deep_view().len() == records@.len(),
            forall|j: int| 0 <= j < records@.len() ==> record_wf(#[trigger] records.deep_view()[j]),
            groups.deep_view() == aggregate_spec(records.deep_view().take(i as int)),
        decreases records@.len() - i,
    {
        proof {
            assert(records.deep_view()[i as int] == records@[i as int]@);
        }
        let item = convert_record(&records[i]);
        insert_item(&mut groups, item);
        proof {
            let rvs = records.deep_view();
            assert(rvs.take(i + 1).drop_last() =~= rvs.take(i as int));
            assert(rvs.take(i + 1).last() == rvs[i as int]);
        }
        i = i + 1;
    }
    proof {
        assert(records.deep_view().take(records@.len() as int) =~= records.deep_view());
    }
    groups
}

/// Files of the aggregated groups come in strictly ascending order.
pub open spec fn groups_files_sorted(gs: Seq<GroupView>) -> bool {
    forall|k: int| 0 <= k && k + 1 < gs.len() ==> lex_lt(#[trigger] gs[k].file, gs[k + 1].file)
}

/// Results ascend by byte start.
pub open spec fn results_sorted(rs: Seq<ItemView>) -> bool {
    forall|k: int| 0 <= k && k + 1 < rs.len() ==> (#[trigger] rs[k].byte_start)
        <= rs[k + 1].byte_start
}

/// The two-level display order: files strictly ascending, and within each
/// file the results ascending by byte start.
pub open spec fn groups_sorted(gs: Seq<GroupView>) -> bool {
    &&& groups_files_sorted(gs)
    &&& forall|k: int| 0 <= k < gs.len() ==> results_sorted(#[trigger] gs[k].results)
}

proof fn lemma_insert_by_start_sorted(rs: Seq<ItemView>, it: ItemView)
    requires
        results_sorted(rs),
    ensures
        results_sorted(insert_by_start(rs, it)),
    decreases rs.len(),
{
    if rs.len() == 0 {
    } else if it.byte_start < rs[0].byte_start {
        let r = seq![it] + rs;
        assert forall|k: int| 0 <= k && k + 1 < r.len() implies (#[trigger] r[k].byte_start)
            <= r[k + 1].byte_start by {
            if k > 0 {
                assert(r[k] == rs[k - 1]);
                assert(r[k + 1] == rs[k]);
            }
        }
    } else {
        assert forall|j: int| 0 <= j && j + 1 < rs.drop_first().len() implies (#[trigger] rs
            .drop_first()[j].byte_start) <= rs.drop_first()[j + 1].byte_start by {
            assert(rs.drop_first()[j] == rs[j + 1]);
            assert(rs.drop_first()[j + 1] == rs[j + 2]);
        }
        lemma_insert_by_start_sorted(rs.drop_first(), it);
        let tail = insert_by_start(rs.drop_first(), it);
        let r = seq![rs[0]] + tail;
        assert forall|k: int| 0 <= k && k + 1 < r.len() implies (#[trigger] r[k].byte_start)
            <= r[k + 1].byte_start by {
            if k == 0 {
                assert(r[1] == tail[0]);
                if rs.drop_first().len() == 0 {
                    assert(tail[0] == it);
                } else if it.byte_start < rs.drop_first()[0].byte_start {
                    assert(tail[0] == it);
                } else {
                    assert(tail[0] == rs.drop_first()[0]);
                    assert(rs.drop_first()[0] == rs[1]);
                }
            } else {
                assert(r[k] == tail[k - 1]);
                assert(r[k + 1] == tail[k]);
            }
        }
    }
}

proof fn lemma_add_item_sorted(gs: Seq<GroupView>, it: ItemView)
    requires
        groups_sorted(gs),
    ensures
        groups_sorted(add_item(gs, it)),
    decreases gs.len(),
{
    let ng = GroupView { file: it.file, results: seq![it] };
    if gs.len() == 0 {
    } else if lex_lt(it.file, gs[0].file) {
        let r = seq![ng] + gs;
        assert forall|k: int| 0 <= k && k + 1 < r.len() implies lex_lt(
            #[trigger] r[k].file,
            r[k + 1].file,
        ) by {
            if k > 0 {
                assert(r[k] == gs[k - 1]);
                assert(r[k + 1] == gs[k]);
            }
        }
        assert forall|k: int| 0 <= k < r.len() implies results_sorted(#[trigger] r[k].results) by {
            if k > 0 {
                assert(r[k] == gs[k - 1]);
            }
        }
    } else if it.file == gs[0].file {
        lemma_insert_by_start_sorted(gs[0].results, it);
        let g0 = GroupView { file: gs[0].file, results: insert_by_start(gs[0].results, it) };
        let r = seq![g0] + gs.drop_first();
        assert forall|k: int| 0 <= k && k + 1 < r.len() implies lex_lt(
            #[trigger] r[k].file,
            r[k + 1].file,
        ) by {
            if k > 0 {
                assert(r[k] == gs[k]);
                assert(r[k + 1] == gs[k + 1]);
            } else {
                assert(r[1] == gs[1]);
            }
        }
        assert forall|k: int| 0 <= k < r.len() implies results_sorted(#[trigger] r[k].results) by {
            if k > 0 {
                assert(r[k] == gs[k]);
            }
        }
    } else {
        lemma_lex_total(it.file, gs[0].file);
        assert(lex_lt(gs[0].file, it.file));
        assert forall|j: int| 0 <= j && j + 1 < gs.drop_first().len() implies lex_lt(
            (#[trigger] gs.drop_first()[j]).file,
            gs.drop_first()[j + 1].file,
        ) by {
            assert(gs.drop_first()[j] == gs[j + 1]);
            assert(gs.drop_first()[j + 1] == gs[j + 2]);
        }
        assert forall|j: int| 0 <= j < gs.drop_first().len() implies results_sorted(
            (#[trigger] gs.drop_first()[j]).results,
        ) by {
            assert(gs.drop_first()[j] == gs[j + 1]);
        }
        lemma_add_item_sorted(gs.drop_first(), it);
        let tail = add_item(gs.drop_first(), it);
        let r = seq![gs[0]] + tail;
        assert forall|k: int| 0 <= k && k + 1 < r.len() implies lex_lt(
            #[trigger] r[k].file,
            r[k + 1].file,
        ) by {
            if k == 0 {
                assert(r[1] == tail[0]);
                if gs.drop_first().len() == 0 {
                    assert(tail[0] == ng);
                } else if lex_lt(it.file, gs.drop_first()[0].file) {
                    assert(tail[0] == ng);
                } else if it.file == gs.drop_first()[0].file {
                    assert(tail[0].file == gs.drop_first()[0].file);
                    assert(gs.drop_first()[0] == gs[1]);
                } else {
                    assert(tail[0] == gs.drop_first()[0]);
                    assert(gs.drop_first()[0] == gs[1]);
                }
            } else {
                assert(r[k] == tail[k - 1]);
                assert(r[k + 1] == tail[k]);
            }
        }
        assert forall|k: int| 0 <= k < r.len() implies results_sorted(#[trigger] r[k].results) by {
            if k > 0 {
                assert(r[k] == tail[k - 1]);
            }
        }
    }
}

/// Law: the aggregated output is deterministically ordered — files strictly
/// ascending by name, and within each file the results ascending by byte
/// start — whatever order the records came in.
pub proof fn lemma_aggregate_sorted(rs: Seq<RecordView>)
    ensures
        groups_sorted(aggregate_spec(rs)),
    decreases rs.len(),
{
    if rs.len() > 0 {
        lemma_aggregate_sorted(rs.drop_last());
        lemma_add_item_sorted(aggregate_spec(rs.drop_last()), item_of(rs.last()));
    }
}

/// Law: a record without a proposed replacement renders as one plain line
/// per excerpt line — no marker, no after-line, and before-line numbers
/// counting up from the record's first line number.
pub proof fn lemma_plain_path(r: RecordView)
    requires
        r.replacement is None,
    ensures
        item_of(r).formatted_lines.len() == split_nl(r.lines).len(),
        forall|i: int|
            0 <= i < item_of(r).formatted_lines.len() ==> {
                let l = #[trigger] item_of(r).formatted_lines[i];
                l.sign is None && l.aln is None && l.bln == Some(r.range.start.line + 1 + i)
                    && l.val == split_nl(r.lines)[i]
            },
{
}

/// Law: a match's identifier depends on its file and byte range alone, so
/// re-running the same query yields the same identifiers.
pub proof fn lemma_id_stable(r1: RecordView, r2: RecordView)
    requires
        r1.file == r2.file,
        r1.range.byte_offset == r2.range.byte_offset,
    ensures
        item_of(r1).id == item_of(r2).id,
{
}

/// Law: aggregation is deterministic — byte-identical record sequences
/// yield one and the same output, identifiers and ordering included.
pub proof fn lemma_aggregate_deterministic(a: Seq<RecordView>, b: Seq<RecordView>)
    requires
        a == b,
    ensures
        aggregate_spec(a) == aggregate_spec(b),
{
}

/// The items a record sequence converts to, in input order.
pub open spec fn items_of(rs: Seq<RecordView>) -> Seq<ItemView> {
    rs.map_values(|r: RecordView| item_of(r))
}

/// All items of the aggregated groups, group by group.
pub open spec fn group_items(gs: Seq<GroupView>) -> Seq<ItemView>
    decreases gs.len(),
{
    if gs.len() == 0 {
        Seq::empty()
    } else {
        gs[0].results + group_items(gs.drop_first())
    }
}

/// No group is empty, and every result sits in the group of its own file.
pub open spec fn groups_coherent(gs: Seq<GroupView>) -> bool {
    forall|k: int|
        0 <= k < gs.len() ==> (#[trigger] gs[k]).results.len() > 0 && forall|j: int|
            0 <= j < gs[k].results.len() ==> (#[trigger] gs[k].results[j]).file == gs[k].file
}

proof fn lemma_insert_by_start_files(rs: Seq<ItemView>, it: ItemView, f: Seq<u8>)
    requires
        it.file == f,
        forall|j: int| 0 <= j < rs.len() ==> (#[trigger] rs[j]).file == f,
    ensures
        insert_by_start(rs, it).len() == rs.len() + 1,
        forall|j: int|
            0 <= j < insert_by_start(rs, it).len() ==> (#[trigger] insert_by_start(rs, it)[j]).file
                == f,
    decreases rs.len(),
{
    if rs.len() == 0 {
    } else if it.byte_start < rs[0].byte_start {
        let r = seq![it] + rs;
        assert forall|j: int| 0 <= j < r.len() implies (#[trigger] r[j]).file == f by {
            if j > 0 {
                assert(r[j] == rs[j - 1]);
            }
        }
    } else {
        assert forall|j: int| 0 <= j < rs.drop_first().len() implies (#[trigger] rs.drop_first()[j]).file
            == f by {
            assert(rs.drop_first()[j] == rs[j + 1]);
        }
        lemma_insert_by_start_files(rs.drop_first(), it, f);
        let tail = insert_by_start(rs.drop_first(), it);
        let r = seq![rs[0]] + tail;
        assert forall|j: int| 0 <= j < r.len() implies (#[trigger] r[j]).file == f by {
            if j > 0 {
                assert(r[j] == tail[j - 1]);
            }
        }
    }
}

proof fn lemma_add_item_coherent(gs: Seq<GroupView>, it: ItemView)
    requires
        groups_coherent(gs),
    ensures
        groups_coherent(add_item(gs, it)),
    decreases gs.len(),
{
    let ng = GroupView { file: it.file, results: seq![it] };
    if gs.len() == 0 {
    } else if lex_lt(it.file, gs[0].file) {
        let r = seq![ng] + gs;
        assert forall|k: int| 0 <= k < r.len() implies (#[trigger] r[k]).results.len() > 0
            && forall|j: int|
            0 <= j < r[k].results.len() ==> (#[trigger] r[k].results[j]).file == r[k].file by {
            if k > 0 {
                assert(r[k] == gs[k - 1]);
            }
        }
    } else if it.file == gs[0].file {
        lemma_insert_by_start_files(gs[0].results, it, gs[0].file);
        let g0 = GroupView { file: gs[0].file, results: insert_by_start(gs[0].results, it) };
        let r = seq![g0] + gs.drop_first();
        assert forall|k: int| 0 <= k < r.len() implies (#[trigger] r[k]).results.len() > 0
            && forall|j: int|
            0 <= j < r[k].results.len() ==> (#[trigger] r[k].results[j]).file == r[k].file by {
            if k > 0 {
                assert(r[k] == gs[k]);
            }
        }
    } else {
        assert forall|k: int| 0 <= k < gs.drop_first().len() implies (#[trigger] gs.drop_first()[k]).results.len()
            > 0 && forall|j: int|
            0 <= j < gs.drop_first()[k].results.len() ==> (#[trigger] gs.drop_first()[k].results[j]).file
                == gs.drop_first()[k].file by {
            assert(gs.drop_first()[k] == gs[k + 1]);
        }
        lemma_add_item_coherent(gs.drop_first(), it);
        let tail = add_item(gs.drop_first(), it);
        let r = seq![gs[0]] + tail;
        assert forall|k: int| 0 <= k < r.len() implies (#[trigger] r[k]).results.len() > 0
            && forall|j: int|
            0 <= j < r[k].results.len() ==> (#[trigger] r[k].results[j]).file == r[k].file by {
            if k > 0 {
                assert(r[k] == tail[k - 1]);
            }
        }
    }
}

/// Law: aggregation groups correctly — no group is empty, every result
/// lies in the group named by its own file, and every converted item keeps
/// the file of the record it came from.
pub proof fn lemma_aggregate_coherent(rs: Seq<RecordView>)
    ensures
        groups_coherent(aggregate_spec(rs)),
    decreases rs.len(),
{
    if rs.len() > 0 {
        lemma_aggregate_coherent(rs.drop_last());
        lemma_add_item_coherent(aggregate_spec(rs.drop_last()), item_of(rs.last()));
    }
}

proof fn lemma_insert_by_start_multiset(rs: Seq<ItemView>, it: ItemView)
    ensures
        insert_by_start(rs, it).to_multiset() == rs.to_multiset().insert(it),
    decreases rs.len(),
{
    rs.to_multiset_ensures();
    if rs.len() == 0 {
        assert(insert_by_start(rs, it) =~= rs.push(it));
    } else if it.byte_start < rs[0].byte_start {
        vstd::seq_lib::lemma_multiset_commutative(seq![it], rs);
        vstd::seq_lib::lemma_multiset_commutative(rs, seq![it]);
        assert(rs.push(it) =~= rs + seq![it]);
        assert(seq![it].to_multiset().add(rs.to_multiset()) =~= rs.to_multiset().add(
            seq![it].to_multiset(),
        ));
    } else {
        lemma_insert_by_start_multiset(rs.drop_first(), it);
        let tail = insert_by_start(rs.drop_first(), it);
        vstd::seq_lib::lemma_multiset_commutative(seq![rs[0]], tail);
        vstd::seq_lib::lemma_multiset_commutative(seq![rs[0]], rs.drop_first());
        assert(rs =~= seq![rs[0]] + rs.drop_first());
        assert(seq![rs[0]].to_multiset().add(rs.drop_first().to_multiset().insert(it)) =~= (seq![
            rs[0],
        ].to_multiset().add(rs.drop_first().to_multiset())).insert(it));
    }
}

proof fn lemma_add_item_items(gs: Seq<GroupView>, it: ItemView)
    ensures
        group_items(add_item(gs, it)).to_multiset() == group_items(gs).to_multiset().insert(it),
    decreases gs.len(),
{
    let ng = GroupView { file: it.file, results: seq![it] };
    if gs.len() == 0 {
        assert(seq![ng].drop_first() =~= Seq::<GroupView>::empty());
        assert(group_items(Seq::<GroupView>::empty()) =~= Seq::<ItemView>::empty());
        assert(group_items(add_item(gs, it)) =~= seq![it]);
        assert(group_items(gs) =~= Seq::<ItemView>::empty());
        assert(seq![it] =~= Seq::<ItemView>::empty().push(it));
        Seq::<ItemView>::empty().to_multiset_ensures();
    } else if lex_lt(it.file, gs[0].file) {
        let r = seq![ng] + gs;
        assert(r[0] == ng);
        assert(r.drop_first() =~= gs);
        assert(group_items(r) == seq![it] + group_items(gs));
        vstd::seq_lib::lemma_multiset_commutative(seq![it], group_items(gs));
        vstd::seq_lib::lemma_multiset_commutative(group_items(gs), seq![it]);
        assert(group_items(gs).push(it) =~= group_items(gs) + seq![it]);
        group_items(gs).to_multiset_ensures();
        assert(seq![it].to_multiset().add(group_items(gs).to_multiset()) =~= group_items(
            gs,
        ).to_multiset().add(seq![it].to_multiset()));
    } else if it.file == gs[0].file {
        let g0 = GroupView { file: gs[0].file, results: insert_by_start(gs[0].results, it) };
        let r = seq![g0] + gs.drop_first();
        assert(r[0] == g0);
        assert(r.drop_first() =~= gs.drop_first());
        assert(group_items(r) == insert_by_start(gs[0].results, it) + group_items(gs.drop_first()));
        lemma_insert_by_start_multiset(gs[0].results, it);
        vstd::seq_lib::lemma_multiset_commutative(
            insert_by_start(gs[0].results, it),
            group_items(gs.drop_first()),
        );
        vstd::seq_lib::lemma_multiset_commutative(gs[0].results, group_items(gs.drop_first()));
        assert((gs[0].results.to_multiset().insert(it)).add(group_items(gs.drop_first()).to_multiset())
            =~= (gs[0].results.to_multiset().add(group_items(gs.drop_first()).to_multiset())).insert(
            it,
        ));
    } else {
        let tail = add_item(gs.drop_first(), it);
        let r = seq![gs[0]] + tail;
        assert(r[0] == gs[0]);
        assert(r.drop_first() =~= tail);
        assert(group_items(r) == gs[0].results + group_items(tail));
        lemma_add_item_items(gs.drop_first(), it);
        vstd::seq_lib::lemma_multiset_commutative(gs[0].results, group_items(tail));
        vstd::seq_lib::lemma_multiset_commutative(gs[0].results, group_items(gs.drop_first()));
        assert(gs[0].results.to_multiset().add(group_items(gs.drop_first()).to_multiset().insert(it))
            =~= (gs[0].results.to_multiset().add(group_items(gs.drop_first()).to_multiset())).insert(
            it,
        ));
    }
}

/// Law: aggregation loses and invents nothing — the items spread over the
/// groups are, as a multiset, exactly the converted input records.
pub proof fn lemma_aggregate_complete(rs: Seq<RecordView>)
    ensures
        group_items(aggregate_spec(rs)).to_multiset() == items_of(rs).to_multiset(),
    decreases rs.len(),
{
    if rs.len() == 0 {
        assert(group_items(aggregate_spec(rs)) =~= items_of(rs));
    } else {
        lemma_aggregate_complete(rs.drop_last());
        lemma_add_item_items(aggregate_spec(rs.drop_last()), item_of(rs.last()));
        assert(items_of(rs) =~= items_of(rs.drop_last()).push(item_of(rs.last())));
        items_of(rs.drop_last()).to_multiset_ensures();
    }
}

} // verus!
