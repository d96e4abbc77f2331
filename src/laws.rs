//! What holds of every resolution, proved over the model in `bundle`.
use vstd::prelude::*;
use crate::bundle::{
    directive, eligible, substituted, children_from, base_of, comment_prefix, file_result, flat, flat_lines, resolution, root_base, scan_from, scan_line,
    script_extension, source_prefix, text_of, Args, BashFile, Fault, Found, ImportStyle,
};
use crate::paths::{extension_of, joined_path};
use crate::text::{has_prefix, joined_lines, lines_of, newline_pieces, without_cr};

verus! {

proof fn lemma_pieces_join(s: Seq<char>)
    ensures
        newline_pieces(s).len() >= 1,
        joined_lines(newline_pieces(s)) == s,
    decreases s.len(),
{
    if s.len() > 0 {
        let s0 = s.drop_last();
        lemma_pieces_join(s0);
        let p = newline_pieces(s0);
        assert(s0.push(s.last()) =~= s);
        if s.last() == '\n' {
            assert(newline_pieces(s).drop_last() =~= p);
            assert(joined_lines(newline_pieces(s)) =~= s0 + seq!['\n'] + Seq::<char>::empty());
        } else {
            let q = newline_pieces(s);
            if p.len() == 1 {
                assert(q[0] =~= s);
            } else {
                assert(q.drop_last() =~= p.drop_last());
                assert(joined_lines(q) =~= (joined_lines(p.drop_last()) + seq!['\n'] + p.last()).push(s.last()));
            }
        }
    }
}

/// Whether `s` holds a carriage return right before a newline.
pub open spec fn has_crlf(s: Seq<char>) -> bool {
    exists|k: int| 0 <= k < s.len() - 1 && s[k] == '\r' && #[trigger] s[k + 1] == '\n'
}

proof fn lemma_pieces_end_without_cr(s: Seq<char>)
    requires
        !has_crlf(s),
    ensures
        newline_pieces(s).len() >= 1,
        newline_pieces(s).last().len() > 0 ==> newline_pieces(s).last().last() == s.last(),
        forall|i: int|
            0 <= i < newline_pieces(s).len() - 1 && newline_pieces(s)[i].len() > 0 ==> newline_pieces(
                s,
            )[i].last() != '\r',
    decreases s.len(),
{
    if s.len() > 0 {
        let s0 = s.drop_last();
        assert(!has_crlf(s0)) by {
            if has_crlf(s0) {
                let k = choose|k: int| 0 <= k < s0.len() - 1 && s0[k] == '\r' && #[trigger] s0[k + 1] == '\n';
                assert(s[k] == '\r' && s[k + 1] == '\n');
            }
        }
        lemma_pieces_end_without_cr(s0);
        lemma_pieces_join(s0);
        let p = newline_pieces(s0);
        let q = newline_pieces(s);
        if s.last() == '\n' {
            assert forall|i: int| 0 <= i < q.len() - 1 && q[i].len() > 0 implies q[i].last() != '\r' by {
                assert(q[i] == p[i]);
                if i == p.len() - 1 {
                    assert(s0.len() > 0) by {
                        if s0.len() == 0 {
                            assert(p =~= seq![Seq::<char>::empty()]);
                        }
                    }
                    assert(p.last().last() == s0.last());
                    if s0.last() == '\r' {
                        assert(s[s.len() - 2] == '\r' && s[s.len() - 2 + 1] == '\n');
                    }
                }
            }
        } else {
            assert forall|i: int| 0 <= i < q.len() - 1 && q[i].len() > 0 implies q[i].last() != '\r' by {
                assert(q[i] == p[i]);
            }
        }
    }
}

/// A file with no imports flattens to its own text, provided that the text
/// holds no `\r\n` and does not end with a newline (line splitting drops a
/// final line ending and the carriage return of a `\r\n`).
pub proof fn flattening_without_imports_keeps_text(f: BashFile)
    requires
        f.dependents@.len() == 0,
        !has_crlf(text_of(f)),
        text_of(f).len() == 0 || text_of(f).last() != '\n',
    ensures
        flat(f) == text_of(f),
{
    let s = text_of(f);
    lemma_pieces_join(s);
    lemma_pieces_end_without_cr(s);
    let p = newline_pieces(s);
    if s.len() == 0 {
        assert(lines_of(s) =~= Seq::<Seq<char>>::empty());
    } else {
        assert(p.last().len() > 0) by {
            let s0 = s.drop_last();
            lemma_pieces_join(s0);
        }
        assert(p.drop_last().map_values(|q: Seq<char>| without_cr(q)) =~= p.drop_last()) by {
            assert forall|i: int| 0 <= i < p.len() - 1 implies without_cr(p[i]) == p[i] by {}
        }
        assert(lines_of(s) =~= p);
    }
}

proof fn lemma_flat_lines_positions(f: BashFile, k: int)
    requires
        0 <= k <= f.dependents@.len(),
        forall|j: int|
            0 <= j < f.dependents@.len() ==> (#[trigger] f.dependents@[j]).line_number < lines_of(
                text_of(f),
            ).len() && f.dependents@[j].resolved.is_some(),
        forall|a: int, b: int|
            0 <= a < b < f.dependents@.len() ==> f.dependents@[a].line_number
                < f.dependents@[b].line_number,
    ensures
        flat_lines(f, k).len() == lines_of(text_of(f)).len(),
        forall|i: int|
            0 <= i < lines_of(text_of(f)).len() && (forall|j: int|
                0 <= j < k ==> f.dependents@[j].line_number != i) ==> flat_lines(f, k)[i] == lines_of(
                text_of(f),
            )[i],
        forall|j: int|
            0 <= j < k ==> flat_lines(f, k)[f.dependents@[j].line_number as int] == flat(
                f.dependents@[j].resolved.unwrap(),
            ),
    decreases k,
{
    if k > 0 {
        lemma_flat_lines_positions(f, k - 1);
        let _ = f.dependents@[k - 1];
        assert forall|j: int| 0 <= j < k implies flat_lines(f, k)[f.dependents@[j].line_number as int]
            == flat(f.dependents@[j].resolved.unwrap()) by {
            if j < k - 1 {
                assert(f.dependents@[j].line_number < f.dependents@[k - 1].line_number);
            }
        }
    }
}

/// Flattening keeps every line that is not a directive where it was, and puts
/// the flattened text of each directive's file on that directive's line.
pub proof fn substitution_in_place(f: BashFile)
    requires
        forall|j: int|
            0 <= j < f.dependents@.len() ==> (#[trigger] f.dependents@[j]).line_number < lines_of(
                text_of(f),
            ).len() && f.dependents@[j].resolved.is_some(),
        forall|a: int, b: int|
            0 <= a < b < f.dependents@.len() ==> f.dependents@[a].line_number
                < f.dependents@[b].line_number,
    ensures
        flat(f) == joined_lines(flat_lines(f, f.dependents@.len() as int)),
        flat_lines(f, f.dependents@.len() as int).len() == lines_of(text_of(f)).len(),
        forall|i: int|
            0 <= i < lines_of(text_of(f)).len() && (forall|j: int|
                0 <= j < f.dependents@.len() ==> f.dependents@[j].line_number != i) ==> flat_lines(
                f,
                f.dependents@.len() as int,
            )[i] == lines_of(text_of(f))[i],
        forall|j: int|
            0 <= j < f.dependents@.len() ==> flat_lines(f, f.dependents@.len() as int)[f.dependents@[j].line_number as int]
                == flat(f.dependents@[j].resolved.unwrap()),
{
    lemma_flat_lines_positions(f, f.dependents@.len() as int);
}

proof fn lemma_scan_order(
    store: Map<Seq<char>, Option<Seq<char>>>,
    cfg: Args,
    base: Seq<char>,
    ls: Seq<Seq<char>>,
    i: int,
)
    requires
        0 <= i,
    ensures
        scan_from(store, cfg, base, ls, i) matches Ok(found) ==> (forall|j: int|
            0 <= j < found.len() ==> i <= (#[trigger] found[j]).line_number < ls.len()) && (forall|
            a: int,
            b: int,
        | 0 <= a < b < found.len() ==> found[a].line_number < found[b].line_number),
    decreases ls.len() - i,
{
    if i < ls.len() {
        lemma_scan_order(store, cfg, base, ls, i + 1);
        match scan_line(store, cfg, base, ls[i], i) {
            Ok(Some(x)) => {
                assert(x.line_number == i);
            },
            _ => {},
        }
    }
}

/// The directives of a file come in line order, each on a line of the file.
pub proof fn directives_in_line_order(
    store: Map<Seq<char>, Option<Seq<char>>>,
    cfg: Args,
    base: Seq<char>,
    ls: Seq<Seq<char>>,
)
    ensures
        scan_from(store, cfg, base, ls, 0) matches Ok(found) ==> (forall|j: int|
            0 <= j < found.len() ==> 0 <= (#[trigger] found[j]).line_number < ls.len()) && (forall|
            a: int,
            b: int,
        | 0 <= a < b < found.len() ==> found[a].line_number < found[b].line_number),
{
    lemma_scan_order(store, cfg, base, ls, 0);
}

proof fn lemma_scan_sources(
    store: Map<Seq<char>, Option<Seq<char>>>,
    cfg: Args,
    base: Seq<char>,
    ls: Seq<Seq<char>>,
    i: int,
)
    requires
        0 <= i,
    ensures
        scan_from(store, cfg, base, ls, i) matches Ok(found) ==> forall|j: int|
            0 <= j < found.len() ==> 0 <= (#[trigger] found[j]).line_number < ls.len() && scan_line(
                store,
                cfg,
                base,
                ls[found[j].line_number],
                found[j].line_number,
            ) == Ok::<Option<Found>, Fault>(Some(found[j])),
    decreases ls.len() - i,
{
    if i < ls.len() {
        lemma_scan_sources(store, cfg, base, ls, i + 1);
        match scan_line(store, cfg, base, ls[i], i) {
            Ok(Some(x)) => {
                assert(x.line_number == i);
                match scan_from(store, cfg, base, ls, i + 1) {
                    Ok(rest) => {
                        let found = seq![x] + rest;
                        assert forall|j: int| 0 < j < found.len() implies found[j] == rest[j - 1] by {}
                    },
                    _ => {},
                }
            },
            _ => {},
        }
    }
}

proof fn lemma_substituted_keeps(ls: Seq<Seq<char>>, found: Seq<Found>, texts: Seq<Seq<char>>, k: int, i: int)
    requires
        0 <= k <= found.len(),
        0 <= i < ls.len(),
        forall|j: int| 0 <= j < k ==> (#[trigger] found[j]).line_number != i,
    ensures
        substituted(ls, found, texts, k).len() == ls.len(),
        substituted(ls, found, texts, k)[i] == ls[i],
    decreases k,
{
    if k > 0 {
        lemma_substituted_keeps(ls, found, texts, k - 1, i);
        let _ = found[k - 1];
    }
}

/// A line of a file that holds no directive (a `source` line with `source`
/// directives off, a `# import` line with comment directives off, or a
/// directive line whose target is no `.sh` file or no file at all) keeps its
/// place and its text in the file's flattened output.
pub proof fn plain_line_is_kept(
    store: Map<Seq<char>, Option<Seq<char>>>,
    cfg: Args,
    path: Seq<char>,
    text: Seq<char>,
    d: int,
    i: int,
)
    requires
        file_result(store, cfg, path, text, d) is Ok,
        0 <= i < lines_of(text).len(),
        scan_line(store, cfg, base_of(path), lines_of(text)[i], i) == Ok::<Option<Found>, Fault>(None),
    ensures
        exists|out: Seq<Seq<char>>|
            file_result(store, cfg, path, text, d) == Ok::<Seq<char>, Fault>(joined_lines(out)) && out.len()
                == lines_of(text).len() && #[trigger] out[i] == lines_of(text)[i],
{
    let ls = lines_of(text);
    lemma_scan_sources(store, cfg, base_of(path), ls, 0);
    let found = scan_from(store, cfg, base_of(path), ls, 0)->Ok_0;
    let texts = children_from(store, cfg, found, 0, d)->Ok_0;
    assert forall|j: int| 0 <= j < found.len() implies (#[trigger] found[j]).line_number != i by {
        if found[j].line_number == i {
            assert(scan_line(store, cfg, base_of(path), ls[i], i) == Ok::<Option<Found>, Fault>(Some(found[j])));
        }
    }
    lemma_substituted_keeps(ls, found, texts, found.len() as int, i);
    let out = substituted(ls, found, texts, found.len() as int);
    assert(out[i] == ls[i]);
}

/// With `source` directives off, a `source` line is no directive; with
/// comment directives off, a `# import` line is none.
pub proof fn styles_are_isolated(
    store: Map<Seq<char>, Option<Seq<char>>>,
    cfg: Args,
    base: Seq<char>,
    line: Seq<char>,
    n: int,
)
    ensures
        !cfg.replace_source && has_prefix(line, source_prefix()) ==> scan_line(store, cfg, base, line, n)
            == Ok::<Option<Found>, Fault>(None),
        !cfg.replace_comment && has_prefix(line, comment_prefix()) ==> scan_line(store, cfg, base, line, n)
            == Ok::<Option<Found>, Fault>(None),
{
    if has_prefix(line, source_prefix()) {
        assert(line[0] == 's');
        assert(!has_prefix(line, comment_prefix())) by {
            if has_prefix(line, comment_prefix()) {
                assert(line.subrange(0, 9)[0] == '#');
            }
        }
    }
    if has_prefix(line, comment_prefix()) {
        assert(line.subrange(0, 9)[0] == '#');
        assert(!has_prefix(line, source_prefix())) by {
            if has_prefix(line, source_prefix()) {
                assert(line.subrange(0, 7)[0] == 's');
            }
        }
    }
}

/// A comment directive names a path relative to the directory of the file
/// that holds it; a `source` directive names one relative to the directory
/// of the root file, at any depth.
pub proof fn directive_path_bases(
    store: Map<Seq<char>, Option<Seq<char>>>,
    cfg: Args,
    path: Seq<char>,
    line: Seq<char>,
    n: int,
)
    ensures
        match scan_line(store, cfg, base_of(path), line, n) {
            Ok(Some(x)) => x.line == line && x.line_number == n && (x.style == ImportStyle::Comment ==> has_prefix(
                line,
                comment_prefix(),
            ) && x.text == line.subrange(9, line.len() as int) && x.path == joined_path(
                base_of(path),
                x.text,
            )) && (x.style == ImportStyle::Source ==> has_prefix(line, source_prefix()) && x.text
                == line.subrange(7, line.len() as int) && x.path == joined_path(root_base(cfg), x.text)),
            _ => true,
        },
{
}

/// A line that starts like a directive but names a path that is no `.sh`
/// file, or no file at all, is no directive: it stays as written.
pub proof fn invalid_target_passes_through(
    store: Map<Seq<char>, Option<Seq<char>>>,
    cfg: Args,
    base: Seq<char>,
    line: Seq<char>,
    n: int,
)
    ensures
        ({
            let p = joined_path(base, line.subrange(9, line.len() as int));
            has_prefix(line, comment_prefix()) && (extension_of(p) != Some(script_extension()) || (
            store.contains_key(p) && store[p].is_none()))
        }) ==> scan_line(store, cfg, base, line, n) == Ok::<Option<Found>, Fault>(None),
        ({
            let p = joined_path(root_base(cfg), line.subrange(7, line.len() as int));
            has_prefix(line, source_prefix()) && (extension_of(p) != Some(script_extension()) || (
            store.contains_key(p) && store[p].is_none()))
        }) ==> scan_line(store, cfg, base, line, n) == Ok::<Option<Found>, Fault>(None),
{
    styles_are_isolated(store, Args { replace_source: false, ..cfg }, base, line, n);
    if has_prefix(line, source_prefix()) {
        assert(line.subrange(0, 7)[0] == 's');
        assert(!has_prefix(line, comment_prefix())) by {
            if has_prefix(line, comment_prefix()) {
                assert(line.subrange(0, 9)[0] == '#');
            }
        }
    }
    if has_prefix(line, comment_prefix()) {
        assert(line.subrange(0, 9)[0] == '#');
        assert(!has_prefix(line, source_prefix())) by {
            if has_prefix(line, source_prefix()) {
                assert(line.subrange(0, 7)[0] == 's');
            }
        }
    }
}

/// `store` knows, of every `.sh` path, whether a file is there.
pub open spec fn knows_all_scripts(store: Map<Seq<char>, Option<Seq<char>>>) -> bool {
    forall|p: Seq<char>| extension_of(p) == Some(script_extension()) ==> #[trigger] store.contains_key(p)
}

/// The file at `p` exists and one of its directives names `q`.
pub open spec fn imports_path(store: Map<Seq<char>, Option<Seq<char>>>, cfg: Args, p: Seq<char>, q: Seq<char>) -> bool {
    store.contains_key(p) && store[p].is_some() && match scan_from(
        store,
        cfg,
        base_of(p),
        lines_of(store[p].unwrap()),
        0,
    ) {
        Ok(found) => exists|j: int| 0 <= j < found.len() && (#[trigger] found[j]).path == q,
        Err(_) => false,
    }
}

/// Every directive of `found` names an existing file of `store`.
pub open spec fn all_known(store: Map<Seq<char>, Option<Seq<char>>>, found: Seq<Found>) -> bool {
    forall|j: int| 0 <= j < found.len() ==> #[trigger] store.contains_key(found[j].path) && store[found[j].path].is_some()
}

proof fn lemma_scan_known(
    store: Map<Seq<char>, Option<Seq<char>>>,
    cfg: Args,
    base: Seq<char>,
    ls: Seq<Seq<char>>,
    i: int,
)
    requires
        knows_all_scripts(store),
    ensures
        scan_from(store, cfg, base, ls, i) is Ok,
        scan_from(store, cfg, base, ls, i) matches Ok(found) ==> all_known(store, found),
    decreases ls.len() - i,
{
    if 0 <= i < ls.len() {
        lemma_scan_known(store, cfg, base, ls, i + 1);
        let line = ls[i];
        if cfg.replace_comment && has_prefix(line, comment_prefix()) {
            let p = joined_path(base, line.subrange(comment_prefix().len() as int, line.len() as int));
            if extension_of(p) == Some(script_extension()) {
                assert(store.contains_key(p));
            }
        }
        let root = root_base(cfg);
        if cfg.replace_source && has_prefix(line, source_prefix()) {
            let p = joined_path(root, line.subrange(source_prefix().len() as int, line.len() as int));
            if extension_of(p) == Some(script_extension()) {
                assert(store.contains_key(p));
            }
        }
        match scan_from(store, cfg, base, ls, i + 1) {
            Ok(rest) => {
                match scan_line(store, cfg, base, line, i) {
                    Ok(Some(x)) => {
                        let found = seq![x] + rest;
                        assert forall|j: int| 0 < j < found.len() implies found[j] == rest[j - 1] by {}
                        let c = directive(store, cfg.replace_comment, comment_prefix(), base, line, i, ImportStyle::Comment);
                        match c {
                            Ok(Some(y)) => {
                                assert(eligible(store, y.path) == Ok::<bool, Fault>(true));
                            },
                            _ => {
                                let t = directive(store, cfg.replace_source, source_prefix(), root, line, i, ImportStyle::Source);
                                assert(t == Ok::<Option<Found>, Fault>(Some(x)));
                                assert(eligible(store, x.path) == Ok::<bool, Fault>(true));
                            },
                        }
                        assert(store.contains_key(x.path) && store[x.path].is_some());
                        assert(scan_from(store, cfg, base, ls, i) == Ok::<Seq<Found>, Fault>(found));
                        assert(all_known(store, rest));
                        assert forall|j: int| 0 <= j < found.len() implies #[trigger] store.contains_key(found[j].path)
                            && store[found[j].path].is_some() by {
                            if j > 0 {
                                assert(found[j] == rest[j - 1]);
                                assert(store.contains_key(rest[j - 1].path));
                            }
                        }
                        assert(all_known(store, found));
                    },
                    Ok(None) => {
                        assert(scan_from(store, cfg, base, ls, i) == Ok::<Seq<Found>, Fault>(rest));
                        assert(all_known(store, rest));
                    },
                    _ => {},
                }
            },
            _ => {},
        }
    }
}

proof fn lemma_file_only_circular(
    store: Map<Seq<char>, Option<Seq<char>>>,
    cfg: Args,
    path: Seq<char>,
    text: Seq<char>,
    d: int,
)
    requires
        knows_all_scripts(store),
        d <= 512,
    ensures
        file_result(store, cfg, path, text, d) is Ok || file_result(store, cfg, path, text, d) == Err::<
            Seq<char>,
            Fault,
        >(Fault::Circular),
    decreases 512 - d, 1int, 0int,
{
    lemma_scan_known(store, cfg, base_of(path), lines_of(text), 0);
    let found = scan_from(store, cfg, base_of(path), lines_of(text), 0)->Ok_0;
    lemma_children_only_circular(store, cfg, found, 0, d);
}

proof fn lemma_children_only_circular(
    store: Map<Seq<char>, Option<Seq<char>>>,
    cfg: Args,
    found: Seq<Found>,
    k: int,
    d: int,
)
    requires
        knows_all_scripts(store),
        d <= 512,
        all_known(store, found),
    ensures
        children_from(store, cfg, found, k, d) is Ok || children_from(store, cfg, found, k, d) == Err::<
            Seq<Seq<char>>,
            Fault,
        >(Fault::Circular),
    decreases 512 - d, 0int, found.len() - k,
{
    if 0 <= k < found.len() {
        let p = found[k].path;
        assert(store.contains_key(p) && store[p].is_some());
        if d + 1 <= 512 {
            lemma_file_only_circular(store, cfg, p, store[p].unwrap(), d + 1);
        }
        lemma_children_only_circular(store, cfg, found, k + 1, d);
    }
}

proof fn lemma_ring_children(
    store: Map<Seq<char>, Option<Seq<char>>>,
    cfg: Args,
    found: Seq<Found>,
    k: int,
    j: int,
    d: int,
)
    requires
        knows_all_scripts(store),
        0 <= d <= 512,
        0 <= k <= j < found.len(),
        all_known(store, found),
        d + 1 > 512 || file_result(store, cfg, found[j].path, store[found[j].path].unwrap(), d + 1) == Err::<
            Seq<char>,
            Fault,
        >(Fault::Circular),
    ensures
        children_from(store, cfg, found, k, d) == Err::<Seq<Seq<char>>, Fault>(Fault::Circular),
    decreases j - k,
{
    let p = found[k].path;
    assert(store.contains_key(p) && store[p].is_some());
    if d + 1 <= 512 {
        lemma_file_only_circular(store, cfg, p, store[p].unwrap(), d + 1);
    }
    if k < j {
        lemma_ring_children(store, cfg, found, k + 1, j, d);
    }
}

proof fn lemma_cycle_at(store: Map<Seq<char>, Option<Seq<char>>>, cfg: Args, cycle: Seq<Seq<char>>, d: int)
    requires
        0 <= d <= 512,
        knows_all_scripts(store),
        cycle.len() >= 1,
        forall|i: int|
            0 <= i < cycle.len() ==> imports_path(store, cfg, #[trigger] cycle[i], cycle[(i + 1) % (cycle.len() as int)]),
    ensures
        forall|i: int|
            0 <= i < cycle.len() ==> file_result(store, cfg, cycle[i], store[cycle[i]].unwrap(), d)
                == Err::<Seq<char>, Fault>(Fault::Circular),
    decreases 512 - d,
{
    if d + 1 <= 512 {
        lemma_cycle_at(store, cfg, cycle, d + 1);
    }
    assert forall|i: int| 0 <= i < cycle.len() implies file_result(
        store,
        cfg,
        cycle[i],
        store[cycle[i]].unwrap(),
        d,
    ) == Err::<Seq<char>, Fault>(Fault::Circular) by {
        lemma_cycle_member(store, cfg, cycle, d, i);
    }
}

#[verifier::rlimit(60)]
proof fn lemma_cycle_member(store: Map<Seq<char>, Option<Seq<char>>>, cfg: Args, cycle: Seq<Seq<char>>, d: int, i: int)
    requires
        0 <= d <= 512,
        0 <= i < cycle.len(),
        knows_all_scripts(store),
        forall|m: int|
            0 <= m < cycle.len() ==> imports_path(store, cfg, #[trigger] cycle[m], cycle[(m + 1) % (cycle.len() as int)]),
        d + 1 <= 512 ==> forall|m: int|
            0 <= m < cycle.len() ==> file_result(store, cfg, cycle[m], store[cycle[m]].unwrap(), d + 1)
                == Err::<Seq<char>, Fault>(Fault::Circular),
    ensures
        file_result(store, cfg, cycle[i], store[cycle[i]].unwrap(), d) == Err::<Seq<char>, Fault>(Fault::Circular),
{
    let next = (i + 1) % (cycle.len() as int);
    assert(imports_path(store, cfg, cycle[i], cycle[next]));
    let ls = lines_of(store[cycle[i]].unwrap());
    lemma_scan_known(store, cfg, base_of(cycle[i]), ls, 0);
    let found = scan_from(store, cfg, base_of(cycle[i]), ls, 0)->Ok_0;
    let j = choose|j: int| 0 <= j < found.len() && (#[trigger] found[j]).path == cycle[next];
    assert(0 <= next < cycle.len());
    if d + 1 <= 512 {
        assert(file_result(store, cfg, cycle[next], store[cycle[next]].unwrap(), d + 1) == Err::<Seq<char>, Fault>(
            Fault::Circular,
        ));
    }
    lemma_ring_children(store, cfg, found, 0, j, d);
    assert(children_from(store, cfg, found, 0, d) == Err::<Seq<Seq<char>>, Fault>(Fault::Circular));
}

/// Files that import one another in a ring, through any of their
/// directives, fail as circular and give no text, once every `.sh` path has
/// been looked up; a file that imports itself is the ring of one.
pub proof fn import_cycle_is_circular(store: Map<Seq<char>, Option<Seq<char>>>, cfg: Args, cycle: Seq<Seq<char>>)
    requires
        knows_all_scripts(store),
        cycle.len() >= 1,
        forall|i: int|
            0 <= i < cycle.len() ==> imports_path(store, cfg, #[trigger] cycle[i], cycle[(i + 1) % (cycle.len() as int)]),
    ensures
        forall|i: int|
            0 <= i < cycle.len() ==> resolution(store, cfg, #[trigger] cycle[i]) == Err::<Seq<char>, Fault>(
                Fault::Circular,
            ),
{
    lemma_cycle_at(store, cfg, cycle, 0);
}

} // verus!
