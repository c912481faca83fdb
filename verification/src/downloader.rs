//! The asset packaging pipeline.
//!
//! An asset collection is turned into one archive: every asset is fetched
//! concurrently by the driver, each result is named by its zero-padded
//! positional index plus the extension of its source path, and the named
//! entries are written into the archive in index order.  Because the index
//! is zero-padded to a fixed width, lexicographic name order equals index
//! order, so the archive layout is reproducible whatever order the fetches
//! completed in.

use vstd::prelude::*;

use crate::service::TaskError;
use crate::strutil::{
    dec_of, dec_string, lemma_dec_len_monotone, lemma_lex_extend, lemma_lex_irrefl,
    lemma_lex_prefix, lemma_padded_lex, lex_lt, pad_string, padded_of,
};

verus! {

/// The zero-padding width for a collection of `n` assets: the decimal digit
/// count of `n`, and one digit for the empty collection.
pub open spec fn width_of(n: nat) -> nat {
    if n == 0 {
        1
    } else {
        dec_of(n).len()
    }
}

/// The zero-padding width for a collection of `n` assets.
pub fn pad_width(n: usize) -> (w: usize)
    ensures
        w as nat == width_of(n as nat),
{
    if n == 0 {
        1
    } else {
        let digits = dec_string(n as u64);
        digits.as_str().unicode_len()
    }
}

/// What the path inspection yields as the extension of the final component
/// of the location, without its leading dot; a function of the string alone.
pub uninterp spec fn ext_of(path: Seq<char>) -> Option<Seq<char>>;

/// The extension suffix appended to an entry name: a dot and the extension
/// of the asset's source path, or nothing when the path has none.
pub open spec fn ext_suffix_of(url: Seq<char>) -> Seq<char> {
    match ext_of(url) {
        Some(e) => "."@ + e,
        None => Seq::empty(),
    }
}

/// The archive entry name for the asset at position `i` of a collection
/// padded to width `w`.
pub open spec fn asset_name_of(i: nat, w: nat, url: Seq<char>) -> Seq<char> {
    padded_of(i, w) + ext_suffix_of(url)
}

/// The path of an entry inside the archive: the collection title, a
/// separator, and the entry name.
pub open spec fn entry_path_of(title: Seq<char>, name: Seq<char>) -> Seq<char> {
    title + "/"@ + name
}

/// Relies on `std::path::Path::extension`: the extension of the path's
/// final component, without the leading dot; a function of the string
/// alone.
#[verifier::external_body]
fn path_extension(path: &str) -> (r: Option<String>)
    ensures
        match r {
            Some(e) => ext_of(path@) == Some(e@),
            None => ext_of(path@) is None,
        },
{
    std::path::Path::new(path).extension().map(|e| e.to_string_lossy().into_owned())
}

/// The archive entry name for the asset at position `i`: the index
/// zero-padded to width `w`, then the extension of the location's path.
pub fn asset_name(i: usize, w: usize, url: &str) -> (r: String)
    ensures
        r@ == asset_name_of(i as nat, w as nat, url@),
{
    let mut name = pad_string(i as u64, w);
    match path_extension(url) {
        Some(e) => {
            name.append(".");
            name.append(e.as_str());
            proof {
                assert(name@ =~= padded_of(i as nat, w as nat) + ("."@ + e@));
            }
        },
        None => {
            proof {
                assert(name@ =~= padded_of(i as nat, w as nat) + Seq::<char>::empty());
            }
        },
    }
    name
}

/// One asset to retrieve: its remote location and the archive entry name
/// already assigned to its position.
#[derive(Debug)]
pub struct AssetRequest {
    pub url: String,
    pub name: String,
}

/// For a collection of assets named by their position, entry names are
/// pairwise distinct and sort lexicographically in positional order,
/// whatever order the fetches complete in.
pub proof fn lemma_entry_names_ordered(title: Seq<char>, requests: Seq<AssetRequest>, i: int, j: int)
    requires
        0 <= i < j < requests.len(),
        forall|k: int|
            0 <= k < requests.len() ==> (#[trigger] requests[k].name)@ == asset_name_of(
                k as nat,
                width_of(requests.len()),
                requests[k].url@,
            ),
    ensures
        lex_lt(
            entry_path_of(title, requests[i].name@),
            entry_path_of(title, requests[j].name@),
        ),
        entry_path_of(title, requests[i].name@) != entry_path_of(title, requests[j].name@),
{
    let n = requests.len();
    let w = width_of(n);
    lemma_dec_len_monotone(j as nat, n);
    lemma_padded_lex(i as nat, j as nat, w);
    lemma_lex_extend(
        padded_of(i as nat, w),
        padded_of(j as nat, w),
        ext_suffix_of(requests[i].url@),
        ext_suffix_of(requests[j].url@),
    );
    lemma_lex_prefix(title + "/"@, requests[i].name@, requests[j].name@);
    assert(entry_path_of(title, requests[i].name@) =~= (title + "/"@) + requests[i].name@);
    assert(entry_path_of(title, requests[j].name@) =~= (title + "/"@) + requests[j].name@);
    if entry_path_of(title, requests[i].name@) == entry_path_of(title, requests[j].name@) {
        lemma_lex_irrefl(entry_path_of(title, requests[i].name@));
    }
}

/// The zero-padding width by collection size: one digit for the empty
/// collection and through nine assets, two digits from ten through
/// ninety-nine.
pub proof fn lemma_width_ranges(n: nat)
    ensures
        n <= 9 ==> width_of(n) == 1,
        10 <= n <= 99 ==> width_of(n) == 2,
{
    if 10 <= n <= 99 {
        assert(dec_of(n) == dec_of(n / 10).push(crate::strutil::digit_char(n % 10)));
        assert(n / 10 < 10);
    }
}

/// One asset retrieval outcome handed back by the driver: the position the
/// asset had in the collection, and its bytes or the transport failure.
/// Results may arrive in any order.
pub struct AssetFetch {
    pub index: usize,
    pub data: Result<Vec<u8>, String>,
}

/// The bytes of a successful fetch.
pub open spec fn fetch_bytes(f: AssetFetch) -> Seq<u8> {
    match f.data {
        Ok(b) => b@,
        Err(_) => Seq::empty(),
    }
}

/// The message of the first failed fetch, in the order the results
/// arrived, if any fetch failed.
pub open spec fn first_fetch_error(fetches: Seq<AssetFetch>) -> Option<Seq<char>>
    decreases fetches.len(),
{
    if fetches.len() == 0 {
        None
    } else {
        match fetches[0].data {
            Err(m) => Some(m@),
            Ok(_) => first_fetch_error(fetches.drop_first()),
        }
    }
}

/// Some fetch result carries position `k`.
pub open spec fn covers(fetches: Seq<AssetFetch>, k: int) -> bool {
    exists|m: int| 0 <= m < fetches.len() && (#[trigger] fetches[m].index) == k
}

/// The join of all fetches handed one result for every position, each
/// position exactly once.
pub open spec fn fetches_complete(n: nat, fetches: Seq<AssetFetch>) -> bool {
    &&& fetches.len() == n
    &&& forall|m: int| 0 <= m < fetches.len() ==> (#[trigger] fetches[m].index) < n
    &&& forall|m1: int, m2: int|
        #![trigger fetches[m1].index, fetches[m2].index]
        0 <= m1 < m2 < fetches.len() ==> fetches[m1].index != fetches[m2].index
    &&& forall|k: int| 0 <= k < n ==> covers(fetches, k)
}

/// The bytes fetched for position `k`: those of the first successful
/// result carrying that position.
pub open spec fn data_for(fetches: Seq<AssetFetch>, k: int) -> Seq<u8>
    decreases fetches.len(),
{
    if fetches.len() == 0 {
        Seq::empty()
    } else if fetches[0].index == k && fetches[0].data is Ok {
        fetch_bytes(fetches[0])
    } else {
        data_for(fetches.drop_first(), k)
    }
}

/// The archive entries for a packaged collection, in positional order:
/// the entry path and the fetched bytes for each position.
pub open spec fn entries_of(
    title: Seq<char>,
    requests: Seq<AssetRequest>,
    fetches: Seq<AssetFetch>,
) -> Seq<(Seq<char>, Seq<u8>)> {
    Seq::new(requests.len(), |i: int| (entry_path_of(title, requests[i].name@), data_for(fetches, i)))
}

proof fn lemma_data_for_unique(fetches: Seq<AssetFetch>, m: int, k: int)
    requires
        0 <= m < fetches.len(),
        fetches[m].index == k,
        fetches[m].data is Ok,
        forall|m1: int, m2: int|
            #![trigger fetches[m1].index, fetches[m2].index]
            0 <= m1 < m2 < fetches.len() ==> fetches[m1].index != fetches[m2].index,
    ensures
        data_for(fetches, k) == fetch_bytes(fetches[m]),
    decreases fetches.len(),
{
    if m == 0 {
    } else {
        assert(fetches[0].index != fetches[m].index);
        let tail = fetches.drop_first();
        assert(forall|m1: int, m2: int|
            #![trigger tail[m1].index, tail[m2].index]
            0 <= m1 < m2 < tail.len() ==> tail[m1].index != tail[m2].index) by {
            assert(forall|j: int| 0 <= j < tail.len() ==> tail[j] == fetches[j + 1]);
        }
        lemma_data_for_unique(tail, m - 1, k);
    }
}

/// A failed fetch among the results always surfaces: the collection is
/// never packaged as if it were complete.
pub proof fn lemma_failed_fetch_surfaces(fetches: Seq<AssetFetch>, m: int)
    requires
        0 <= m < fetches.len(),
        fetches[m].data is Err,
    ensures
        first_fetch_error(fetches) is Some,
    decreases fetches.len(),
{
    if fetches[0].data is Err {
    } else {
        lemma_failed_fetch_surfaces(fetches.drop_first(), m - 1);
    }
}

/// What the archive format produces for the given entries, written in the
/// given order with the fixed default entry options: a function of the
/// entries alone.
pub uninterp spec fn zip_archive(entries: Seq<(Seq<char>, Seq<u8>)>) -> Seq<u8>;

/// Whether the archive format accepts one more entry with this name and
/// these bytes after the given entries.  Over an in-memory buffer the
/// writer fails only on conditions of the data itself (a duplicate name, a
/// name or entry beyond the format's size fields), so acceptance is a
/// function of these arguments alone.
pub uninterp spec fn archive_accepts(
    entries: Seq<(Seq<char>, Seq<u8>)>,
    name: Seq<char>,
    data: Seq<u8>,
) -> bool;

/// Whether the archive format can finish an archive holding the given
/// entries; over an in-memory buffer, a function of the entries alone.
pub uninterp spec fn archive_completes(entries: Seq<(Seq<char>, Seq<u8>)>) -> bool;

/// The archive format accepts every entry, each after the ones before it.
pub open spec fn entries_accepted(entries: Seq<(Seq<char>, Seq<u8>)>) -> bool
    decreases entries.len(),
{
    if entries.len() == 0 {
        true
    } else {
        entries_accepted(entries.drop_last()) && archive_accepts(
            entries.drop_last(),
            entries.last().0,
            entries.last().1,
        )
    }
}

proof fn lemma_entries_accepted_prefix(entries: Seq<(Seq<char>, Seq<u8>)>, k: int)
    requires
        0 <= k <= entries.len(),
        entries_accepted(entries),
    ensures
        entries_accepted(entries.take(k)),
    decreases entries.len(),
{
    if k == entries.len() {
        assert(entries.take(k) =~= entries);
    } else {
        assert(entries.drop_last().take(k) =~= entries.take(k));
        lemma_entries_accepted_prefix(entries.drop_last(), k);
    }
}

/// An archive under construction, held opaquely; what has been written
/// into it is described only by `archive_entries`.
#[verifier::external_body]
pub struct ArchiveBuilder {
    inner: zip::ZipWriter<std::io::Cursor<Vec<u8>>>,
}

/// The named entries written so far into an archive under construction.
pub uninterp spec fn archive_entries(w: ArchiveBuilder) -> Seq<(Seq<char>, Seq<u8>)>;

/// Relies on `zip::ZipWriter::new` over an in-memory buffer: a fresh
/// archive with no entries.
#[verifier::external_body]
fn archive_new() -> (r: ArchiveBuilder)
    ensures
        archive_entries(r) == Seq::<(Seq<char>, Seq<u8>)>::empty(),
{
    ArchiveBuilder { inner: zip::ZipWriter::new(std::io::Cursor::new(Vec::new())) }
}

/// Relies on `zip::ZipWriter::start_file` with the default entry options
/// and `std::io::Write::write_all`: on success, one more named entry with
/// the given bytes stands at the end of the archive.  Over the in-memory
/// buffer the call succeeds exactly when the format accepts the entry,
/// which depends on the entries written so far, the name and the bytes
/// alone.
#[verifier::external_body]
fn archive_add(w: &mut ArchiveBuilder, name: &str, data: &[u8]) -> (r: Result<(), String>)
    ensures
        r is Ok <==> archive_accepts(archive_entries(*old(w)), name@, data@),
        r is Ok ==> archive_entries(*final(w)) == archive_entries(*old(w)).push((name@, data@)),
{
    let options = zip::write::SimpleFileOptions::default();
    if let Err(e) = w.inner.start_file(name, options) {
        return Err(e.to_string());
    }
    match std::io::Write::write_all(&mut w.inner, data) {
        Ok(_) => Ok(()),
        Err(e) => Err(e.to_string()),
    }
}

/// Relies on `zip::ZipWriter::finish`: the bytes of the finished archive,
/// determined by the entries written into it.  Over the in-memory buffer
/// the call succeeds exactly when the format can finish an archive holding
/// those entries.
#[verifier::external_body]
fn archive_finish(w: ArchiveBuilder) -> (r: Result<Vec<u8>, String>)
    ensures
        r is Ok <==> archive_completes(archive_entries(w)),
        r matches Ok(b) ==> b@ == zip_archive(archive_entries(w)),
{
    match w.inner.finish() {
        Ok(cursor) => Ok(cursor.into_inner()),
        Err(e) => Err(e.to_string()),
    }
}

/// The produced archive: where the driver should store it, and its bytes.
#[derive(Debug)]
pub struct ArchiveOutput {
    pub path: String,
    pub bytes: Vec<u8>,
}

/// Packages a fetched collection into one archive.  If any fetch failed,
/// the first failure in arrival order is reported and nothing is packaged.
/// Otherwise the entries are written in positional order, so the archive
/// layout does not depend on the order the fetches completed in, and the
/// archive is produced whenever the format accepts every entry; only an
/// entry the format refuses is reported as a write failure.
#[verifier::rlimit(30)]
pub fn package_assets(title: &str, requests: &Vec<AssetRequest>, fetches: Vec<AssetFetch>) -> (r:
    Result<ArchiveOutput, TaskError>)
    requires
        fetches_complete(requests@.len() as nat, fetches@),
    ensures
        match first_fetch_error(fetches@) {
            Some(m) => r matches Err(TaskError::FetchFailed { message }) && message@ == m,
            None => ({
                let entries = entries_of(title@, requests@, fetches@);
                if entries_accepted(entries) && archive_completes(entries) {
                    r matches Ok(a) && a.path@ == title@ + ".zip"@ && a.bytes@ == zip_archive(
                        entries,
                    )
                } else {
                    r matches Err(e) && e is WriteFailed
                }
            }),
        },
{
    let n = requests.len();
    let ghost allf = fetches@;
    // Surface the first failed fetch, in the order the results arrived.
    let mut idx: usize = 0;
    proof {
        assert(allf.skip(0) =~= allf);
    }
    while idx < fetches.len()
        invariant
            allf == fetches@,
            idx <= allf.len(),
            first_fetch_error(allf) == first_fetch_error(allf.skip(idx as int)),
            forall|m: int| 0 <= m < idx ==> (#[trigger] allf[m].data) is Ok,
        decreases allf.len() - idx,
    {
        proof {
            assert(allf.skip(idx as int)[0] == allf[idx as int]);
            assert(allf.skip(idx as int).drop_first() =~= allf.skip(idx as int + 1));
        }
        match &fetches[idx].data {
            Err(m) => {
                return Err(TaskError::FetchFailed { message: m.clone() });
            },
            Ok(_) => {},
        }
        idx = idx + 1;
    }
    proof {
        assert(allf.skip(allf.len() as int) =~= Seq::<AssetFetch>::empty());
    }
    // Place each result at its position, whatever order it arrived in.
    let mut slots: Vec<Option<Vec<u8>>> = Vec::new();
    let mut si: usize = 0;
    while si < n
        invariant
            slots@.len() == si,
            si <= n,
        decreases n - si,
    {
        slots.push(None);
        si = si + 1;
    }
    let mut rem = fetches;
    proof {
        assert(allf.take(allf.len() as int) =~= allf);
    }
    while rem.len() > 0
        invariant
            allf == fetches@,
            first_fetch_error(allf) is None,
            slots@.len() == n,
            fetches_complete(n as nat, allf),
            forall|m: int| 0 <= m < allf.len() ==> (#[trigger] allf[m].data) is Ok,
            rem@.len() <= allf.len(),
            rem@ == allf.take(rem@.len() as int),
            forall|m: int|
                rem@.len() <= m < allf.len() ==> ((#[trigger] slots@[allf[m].index as int]) matches Some(
                b) && b@ == fetch_bytes(allf[m])),
        decreases rem@.len(),
    {
        let ghost lpre = rem@.len() as int;
        let f = match rem.pop() {
            Some(f) => f,
            None => {
                proof {
                    assert(false);
                }
                return Err(TaskError::WriteFailed { message: String::new() });
            },
        };
        proof {
            assert(allf.take(lpre).last() == allf[lpre - 1]);
            assert(allf.take(lpre).drop_last() =~= allf.take(lpre - 1));
            assert(f == allf[lpre - 1]);
        }
        let AssetFetch { index, data } = f;
        let bytes = match data {
            Ok(bytes) => bytes,
            Err(_) => {
                proof {
                    assert(false);
                }
                return Err(TaskError::WriteFailed { message: String::new() });
            },
        };
        slots[index] = Some(bytes);
        proof {
            assert forall|m: int|
                rem@.len() <= m < allf.len() implies ((#[trigger] slots@[allf[m].index as int]) matches Some(
                b) && b@ == fetch_bytes(allf[m])) by {
                if m != lpre - 1 {
                    assert(allf[m].index != allf[lpre - 1].index);
                }
            }
        }
    }
    // The slot for each position holds exactly the bytes fetched for it.
    proof {
        assert forall|k: int| 0 <= k < n implies ((#[trigger] slots@[k]) matches Some(b) && b@
            == data_for(allf, k)) by {
            assert(covers(allf, k));
            let m = choose|m: int| 0 <= m < allf.len() && (#[trigger] allf[m].index) == k;
            lemma_data_for_unique(allf, m, k);
        }
    }
    // Write the entries in positional order.
    let ghost entries = entries_of(title@, requests@, allf);
    let mut writer = archive_new();
    let mut k: usize = 0;
    proof {
        assert(entries.take(0) =~= Seq::<(Seq<char>, Seq<u8>)>::empty());
    }
    while k < n
        invariant
            allf == fetches@,
            first_fetch_error(allf) is None,
            n == requests@.len(),
            slots@.len() == n,
            entries == entries_of(title@, requests@, allf),
            forall|kk: int|
                0 <= kk < n ==> ((#[trigger] slots@[kk]) matches Some(b) && b@ == data_for(
                allf,
                kk,
                )),
            k <= n,
            archive_entries(writer) == entries.take(k as int),
            entries_accepted(entries.take(k as int)),
        decreases n - k,
    {
        let mut path = title.to_owned();
        path.append("/");
        path.append(requests[k].name.as_str());
        proof {
            assert(path@ =~= entry_path_of(title@, requests@[k as int].name@));
        }
        let data = match &slots[k] {
            Some(data) => data,
            None => {
                proof {
                    assert(false);
                }
                return Err(TaskError::WriteFailed { message: String::new() });
            },
        };
        proof {
            assert(entries[k as int].0 == path@);
            assert(entries[k as int].1 == data@);
        }
        match archive_add(&mut writer, path.as_str(), data.as_slice()) {
            Ok(_) => {},
            Err(message) => {
                proof {
                    // The format refused this entry, so it does not accept
                    // the whole collection either.
                    if entries_accepted(entries) {
                        lemma_entries_accepted_prefix(entries, k as int + 1);
                        assert(entries.take(k as int + 1).drop_last() =~= entries.take(k as int));
                        assert(entries.take(k as int + 1).last() == entries[k as int]);
                    }
                }
                return Err(TaskError::WriteFailed { message });
            },
        }
        k = k + 1;
        proof {
            assert(entries.take(k as int) =~= entries.take(k as int - 1).push(
                entries[k as int - 1],
            ));
            assert(entries.take(k as int).drop_last() =~= entries.take(k as int - 1));
            assert(entries.take(k as int).last() == entries[k as int - 1]);
        }
    }
    proof {
        assert(entries.take(n as int) =~= entries);
    }
    let bytes = match archive_finish(writer) {
        Ok(bytes) => bytes,
        Err(message) => {
            return Err(TaskError::WriteFailed { message });
        },
    };
    let mut path = title.to_owned();
    path.append(".zip");
    proof {
        assert(path@ =~= title@ + ".zip"@);
    }
    Ok(ArchiveOutput { path, bytes })
}

} // verus!
