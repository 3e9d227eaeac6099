//! Splitting the files among workers and gathering what they computed.
use vstd::prelude::*;
use crate::keyed_table::KeyedTable;
use crate::stats::SiteStats;

verus! {

/// The chunk size used to split `files` files among `number_threads`
/// workers: with more threads than files, one file per chunk; otherwise the
/// quotient files/threads rounded down. With no threads and no files the
/// quotient reads as zero, and with no threads but some files as the largest
/// size, which puts every file in one chunk.
pub open spec fn spec_chunk_size(number_threads: nat, files: nat) -> nat {
    if number_threads > files {
        1
    } else if files == 0 {
        0
    } else if number_threads == 0 {
        usize::MAX as nat
    } else {
        files / number_threads
    }
}

/// Returns the size of each chunk of files handed to one worker.
pub fn get_chunk_size(number_threads: &usize, size_vec_all_sites_names: &usize) -> (chunk: usize)
    ensures
        chunk == spec_chunk_size(*number_threads as nat, *size_vec_all_sites_names as nat),
        *number_threads > *size_vec_all_sites_names ==> chunk == 1,
{
    if *number_threads > *size_vec_all_sites_names {
        1
    } else if *size_vec_all_sites_names == 0 {
        0
    } else if *number_threads == 0 {
        usize::MAX
    } else {
        *size_vec_all_sites_names / *number_threads
    }
}

/// The number of chunks of `chunk` items that `n` items make, the last one
/// possibly shorter.
pub open spec fn chunk_count(n: nat, chunk: nat) -> nat
    recommends
        chunk > 0,
{
    ((n + chunk - 1) / chunk as int) as nat
}

/// Chunk `i` of `s` in chunks of `chunk` items.
pub open spec fn chunk_at<T>(s: Seq<T>, chunk: nat, i: int) -> Seq<T> {
    let start = i * chunk;
    let end = if (i + 1) * chunk <= s.len() {
        (i + 1) * chunk
    } else {
        s.len() as int
    };
    s.subrange(start, end)
}

/// Splits the paths into consecutive chunks of `chunk_size` paths, the last
/// one possibly shorter, as `slice::chunks` does.
pub fn split_into_chunks(paths: &Vec<String>, chunk_size: usize) -> (chunks: Vec<Vec<String>>)
    requires
        chunk_size > 0,
    ensures
        chunks.len() == chunk_count(paths.len() as nat, chunk_size as nat),
        forall|i: int|
            0 <= i < chunks.len() ==> (#[trigger] chunks@[i])@ == chunk_at(paths@, chunk_size as nat, i),
{
    let n = paths.len();
    let mut chunks: Vec<Vec<String>> = Vec::new();
    let mut start: usize = 0;
    proof {
        assert(chunk_count(n as nat, chunk_size as nat) * chunk_size >= n) by (nonlinear_arith)
            requires
                chunk_size > 0,
                chunk_count(n as nat, chunk_size as nat) == (n + chunk_size - 1) / chunk_size as int,
        ;
        assert(chunks.len() * chunk_size == 0) by (nonlinear_arith)
            requires
                chunks.len() == 0,
        ;
        if n == 0 {
            assert((n + chunk_size - 1) / chunk_size as int == 0) by (nonlinear_arith)
                requires
                    n == 0,
                    chunk_size > 0,
            ;
        } else {
            assert((n + chunk_size - 1) / chunk_size as int > 0) by (nonlinear_arith)
                requires
                    n > 0,
                    chunk_size > 0,
            ;
        }
    }
    while start < n
        invariant
            n == paths.len(),
            chunk_size > 0,
            start <= n,
            start < n ==> start == chunks.len() * chunk_size,
            chunks.len() <= chunk_count(n as nat, chunk_size as nat),
            start < n ==> chunks.len() < chunk_count(n as nat, chunk_size as nat),
            start >= n ==> chunks.len() == chunk_count(n as nat, chunk_size as nat),
            forall|i: int|
                0 <= i < chunks.len() ==> (#[trigger] chunks@[i])@ == chunk_at(paths@, chunk_size as nat, i),
        decreases n - start,
    {
        let end = if n - start >= chunk_size {
            start + chunk_size
        } else {
            n
        };
        let mut chunk: Vec<String> = Vec::new();
        let mut j = start;
        while j < end
            invariant
                start <= j <= end <= n,
                n == paths.len(),
                chunk@ == paths@.subrange(start as int, j as int),
            decreases end - j,
        {
            chunk.push(paths[j].clone());
            assert(chunk@ =~= paths@.subrange(start as int, j + 1));
            j = j + 1;
        }
        let ghost k = chunks.len() as int;
        proof {
            assert(chunk_at(paths@, chunk_size as nat, k) == paths@.subrange(start as int, end as int)) by {
                assert(k * chunk_size == start);
                assert((k + 1) * chunk_size == start + chunk_size) by (nonlinear_arith)
                    requires
                        k * chunk_size == start,
                ;
            }
        }
        chunks.push(chunk);
        proof {
            let c = chunk_count(n as nat, chunk_size as nat);
            assert(chunks.len() * chunk_size == start + chunk_size) by (nonlinear_arith)
                requires
                    chunks.len() == k + 1,
                    k * chunk_size == start,
            ;
            assert(c == (n + chunk_size - 1) / chunk_size as int);
            if end < n {
                assert(start + chunk_size < n);
                assert((k + 1) < c) by (nonlinear_arith)
                    requires
                        (k + 1) * chunk_size < n,
                        c == (n + chunk_size - 1) / chunk_size as int,
                        chunk_size > 0,
                ;
            } else {
                assert(k + 1 >= c) by (nonlinear_arith)
                    requires
                        (k + 1) * chunk_size >= n,
                        c == (n + chunk_size - 1) / chunk_size as int,
                        chunk_size > 0,
                ;
            }
            assert forall|i: int| 0 <= i < chunks.len() implies (#[trigger] chunks@[i])@ == chunk_at(
                paths@,
                chunk_size as nat,
                i,
            ) by {
                if i < k {
                }
            }
        }
        start = end;
    }
    chunks
}

/// The site table after inserting each result in turn; a later result for
/// the same site replaces an earlier one.
pub open spec fn sites_after_results(
    m: Map<Seq<char>, SiteStats>,
    results: Seq<(String, SiteStats)>,
) -> Map<Seq<char>, SiteStats>
    decreases results.len(),
{
    if results.len() == 0 {
        m
    } else {
        sites_after_results(m, results.drop_last()).insert(results.last().0@, results.last().1)
    }
}

/// Gathers the results of the workers into the table of all sites.
pub fn insert_site_results(
    all_site_stats: &mut KeyedTable<SiteStats>,
    results: Vec<(String, SiteStats)>,
)
    ensures
        final(all_site_stats)@ == sites_after_results(old(all_site_stats)@, results@),
{
    let ghost all = results@;
    let ghost m0 = all_site_stats@;
    let mut rest = results;
    let ghost mut t: int = 0;
    proof {
        assert(all.take(0) =~= Seq::<(String, SiteStats)>::empty());
        assert(all.skip(0) =~= all);
    }
    while rest.len() > 0
        invariant
            0 <= t <= all.len(),
            rest@ == all.skip(t),
            all_site_stats@ == sites_after_results(m0, all.take(t)),
        decreases rest.len(),
    {
        let (name, stats) = rest.remove(0);
        proof {
            assert(all[t] == (name, stats));
            assert(all.take(t + 1).drop_last() =~= all.take(t));
            assert(rest@ =~= all.skip(t + 1));
            t = t + 1;
        }
        all_site_stats.insert(name, stats);
    }
    proof {
        assert(all.take(t) =~= all);
    }
}

/// With at least one thread and one file, every chunk holds at least one file,
/// and the files make at least as many chunks as there are threads (or files,
/// when threads outnumber them): rounding the chunk size down never leaves a
/// thread without work. With more threads than files, each file is a chunk of
/// its own.
pub proof fn lemma_chunks_cover_threads(number_threads: nat, files: nat)
    requires
        number_threads >= 1,
        files >= 1,
    ensures
        spec_chunk_size(number_threads, files) >= 1,
        chunk_count(files, spec_chunk_size(number_threads, files)) >= if number_threads <= files {
            number_threads
        } else {
            files
        },
        number_threads > files ==> chunk_count(files, spec_chunk_size(number_threads, files))
            == files,
{
    let t: nat = if number_threads <= files {
        number_threads
    } else {
        files
    };
    let c = spec_chunk_size(number_threads, files);
    if number_threads > files {
        assert(c == 1);
        assert((files + 1 - 1) / 1int == files);
    } else {
        assert(c == files / number_threads);
        assert(c >= 1) by (nonlinear_arith)
            requires
                c == files / number_threads,
                number_threads <= files,
                number_threads >= 1,
        ;
        assert(c * t <= files) by (nonlinear_arith)
            requires
                c == files / number_threads,
                t == number_threads,
                number_threads >= 1,
        ;
        assert((files + c - 1) / c as int >= t) by (nonlinear_arith)
            requires
                c * t <= files,
                c >= 1,
        ;
    }
}

/// Each path lands in exactly one chunk: path `j` is item `j % chunk` of
/// chunk `j / chunk`, one of the chunks that the paths make.
pub proof fn lemma_chunk_position<T>(s: Seq<T>, chunk: nat, j: int)
    requires
        chunk > 0,
        0 <= j < s.len(),
    ensures
        0 <= j / (chunk as int) < chunk_count(s.len(), chunk),
        0 <= j % (chunk as int) < chunk_at(s, chunk, j / (chunk as int)).len(),
        chunk_at(s, chunk, j / (chunk as int))[j % (chunk as int)] == s[j],
{
    let c = chunk as int;
    let q = j / c;
    let r = j % c;
    assert(q * c + r == j && 0 <= r < c && q >= 0) by (nonlinear_arith)
        requires
            c > 0,
            j >= 0,
            q == j / c,
            r == j % c,
    ;
    assert(q < (s.len() + c - 1) / c) by (nonlinear_arith)
        requires
            q * c + r == j,
            0 <= r < c,
            j < s.len(),
            c > 0,
    ;
    assert((q + 1) * c == q * c + c) by (nonlinear_arith);
}


/// The results of a run of paths: the results of each path in turn, as one
/// worker produces them.
pub open spec fn results_of_paths(
    paths: Seq<Seq<char>>,
    results_of: spec_fn(Seq<char>) -> Seq<(String, SiteStats)>,
) -> Seq<(String, SiteStats)>
    decreases paths.len(),
{
    if paths.len() == 0 {
        Seq::empty()
    } else {
        results_of_paths(paths.drop_last(), results_of) + results_of(paths.last())
    }
}

/// The site table after gathering, chunk after chunk, the results of the
/// first `k` chunks of `chunk` paths each.
pub open spec fn sites_after_chunks(
    m: Map<Seq<char>, SiteStats>,
    paths: Seq<Seq<char>>,
    results_of: spec_fn(Seq<char>) -> Seq<(String, SiteStats)>,
    chunk: nat,
    k: nat,
) -> Map<Seq<char>, SiteStats>
    decreases k,
{
    if k == 0 {
        m
    } else {
        sites_after_results(
            sites_after_chunks(m, paths, results_of, chunk, (k - 1) as nat),
            results_of_paths(chunk_at(paths, chunk, k - 1), results_of),
        )
    }
}

proof fn lemma_sites_after_results_append(
    m: Map<Seq<char>, SiteStats>,
    a: Seq<(String, SiteStats)>,
    b: Seq<(String, SiteStats)>,
)
    ensures
        sites_after_results(m, a + b) == sites_after_results(sites_after_results(m, a), b),
    decreases b.len(),
{
    if b.len() == 0 {
        assert(a + b =~= a);
    } else {
        lemma_sites_after_results_append(m, a, b.drop_last());
        assert((a + b).drop_last() =~= a + b.drop_last());
        assert((a + b).last() == b.last());
    }
}

proof fn lemma_results_of_paths_append(
    a: Seq<Seq<char>>,
    b: Seq<Seq<char>>,
    results_of: spec_fn(Seq<char>) -> Seq<(String, SiteStats)>,
)
    ensures
        results_of_paths(a + b, results_of) == results_of_paths(a, results_of) + results_of_paths(
            b,
            results_of,
        ),
    decreases b.len(),
{
    if b.len() == 0 {
        assert(a + b =~= a);
        assert(results_of_paths(a, results_of) + results_of_paths(b, results_of)
            =~= results_of_paths(a, results_of));
    } else {
        lemma_results_of_paths_append(a, b.drop_last(), results_of);
        assert((a + b).drop_last() =~= a + b.drop_last());
        assert((a + b).last() == b.last());
        assert(results_of_paths(a, results_of) + results_of_paths(b, results_of) =~= (
        results_of_paths(a, results_of) + results_of_paths(b.drop_last(), results_of))
            + results_of(b.last()));
    }
}

proof fn lemma_sites_after_first_chunks(
    m: Map<Seq<char>, SiteStats>,
    paths: Seq<Seq<char>>,
    results_of: spec_fn(Seq<char>) -> Seq<(String, SiteStats)>,
    chunk: nat,
    k: nat,
)
    requires
        chunk > 0,
        k <= chunk_count(paths.len(), chunk),
    ensures
        sites_after_chunks(m, paths, results_of, chunk, k) == sites_after_results(
            m,
            results_of_paths(
                paths.take(if k * chunk <= paths.len() { (k * chunk) as int } else { paths.len() as int }),
                results_of,
            ),
        ),
    decreases k,
{
    let n = paths.len() as int;
    let c = chunk as int;
    if k == 0 {
        assert(paths.take(0) =~= Seq::<Seq<char>>::empty());
    } else {
        let j = (k - 1) as nat;
        lemma_sites_after_first_chunks(m, paths, results_of, chunk, j);
        assert(j * c < n) by (nonlinear_arith)
            requires
                j < chunk_count(paths.len(), chunk),
                chunk_count(paths.len(), chunk) == (n + c - 1) / c,
                c > 0,
        ;
        assert(k * c == j * c + c) by (nonlinear_arith)
            requires
                k == j + 1,
        ;
        let start = j * c;
        let end = if k * c <= n { k * c } else { n };
        assert(chunk_at(paths, chunk, j as int) == paths.subrange(start, end));
        assert(paths.take(end) =~= paths.take(start) + paths.subrange(start, end));
        lemma_results_of_paths_append(paths.take(start), paths.subrange(start, end), results_of);
        lemma_sites_after_results_append(
            m,
            results_of_paths(paths.take(start), results_of),
            results_of_paths(paths.subrange(start, end), results_of),
        );
    }
}

/// Gathering the results of every chunk gives the table that gathering the
/// results of every path in order gives, whatever the chunk size.
pub proof fn lemma_sites_after_all_chunks(
    m: Map<Seq<char>, SiteStats>,
    paths: Seq<Seq<char>>,
    results_of: spec_fn(Seq<char>) -> Seq<(String, SiteStats)>,
    chunk: nat,
)
    requires
        chunk > 0,
    ensures
        sites_after_chunks(m, paths, results_of, chunk, chunk_count(paths.len(), chunk))
            == sites_after_results(m, results_of_paths(paths, results_of)),
{
    let n = paths.len() as int;
    let c = chunk as int;
    let k = chunk_count(paths.len(), chunk);
    lemma_sites_after_first_chunks(m, paths, results_of, chunk, k);
    assert(k * c >= n) by (nonlinear_arith)
        requires
            k == (n + c - 1) / c,
            c > 0,
            n >= 0,
    ;
    assert(paths.take(n) =~= paths);
}

/// The sites gathered do not depend on the number of threads: splitting the
/// files for `threads1` or for `threads2` workers, and gathering what each
/// worker computed chunk after chunk, gives the same table, when either
/// split has a chunk size (no threads and no files gives none).
pub proof fn lemma_sites_independent_of_threads(
    m: Map<Seq<char>, SiteStats>,
    paths: Seq<Seq<char>>,
    results_of: spec_fn(Seq<char>) -> Seq<(String, SiteStats)>,
    threads1: nat,
    threads2: nat,
)
    requires
        spec_chunk_size(threads1, paths.len()) > 0,
        spec_chunk_size(threads2, paths.len()) > 0,
    ensures
        sites_after_chunks(
            m,
            paths,
            results_of,
            spec_chunk_size(threads1, paths.len()),
            chunk_count(paths.len(), spec_chunk_size(threads1, paths.len())),
        ) == sites_after_chunks(
            m,
            paths,
            results_of,
            spec_chunk_size(threads2, paths.len()),
            chunk_count(paths.len(), spec_chunk_size(threads2, paths.len())),
        ),
{
    lemma_sites_after_all_chunks(m, paths, results_of, spec_chunk_size(threads1, paths.len()));
    lemma_sites_after_all_chunks(m, paths, results_of, spec_chunk_size(threads2, paths.len()));
}

} // verus!
