//! The text of the files that a cycle writes: one zone fragment per source, and
//! the destination zone file merged from static and generated fragments.

use crate::config::{sources_view, ExternalSource, ExternalSourceView};
use crate::dns_record::{batch_view, clone_records, DnsRecord, DnsRecordView};
use crate::dns_record_collector::collection_view;
use crate::sorting::{
    lemma_sort_idempotent, lemma_sort_is_permutation, lemma_sort_is_sorted, lemma_sort_len,
    sort_by_fqdn, sort_records_by_fqdn, sorted_by_fqdn,
};
use vstd::hash_map::StringHashMap;
use vstd::hash_set::StringHashSet;
use vstd::prelude::*;
use vstd::string::*;

verus! {

/// The line that a fragment holds for `record`: its zone line, commented out
/// and flagged where the record is a duplicate.
pub open spec fn record_line(record: DnsRecordView) -> Seq<char> {
    if record.is_duplicate {
        "; "@ + record.a_record + " - Duplicate"@ + "\n"@
    } else {
        record.a_record + "\n"@
    }
}

/// The lines of `records`, in order.
pub open spec fn record_lines(records: Seq<DnsRecordView>) -> Seq<char>
    decreases records.len(),
{
    if records.len() == 0 {
        Seq::empty()
    } else {
        record_lines(records.drop_last()) + record_line(records.last())
    }
}

/// The first line of a fragment, which names its source.
pub open spec fn fragment_header(source_name: Seq<char>) -> Seq<char> {
    "; Source: "@ + source_name + "\n"@
}

/// The line that stands for the records of an empty batch, and nothing for a
/// batch that has records.
pub open spec fn empty_marker(records: Seq<DnsRecordView>) -> Seq<char> {
    if records.len() == 0 {
        "; No DNS records found\n"@
    } else {
        Seq::empty()
    }
}

/// The fragment of one source: the header, the records' lines in ascending
/// order of FQDN, and a closing blank line.
pub open spec fn fragment_text(source_name: Seq<char>, records: Seq<DnsRecordView>) -> Seq<char> {
    fragment_header(source_name) + empty_marker(records) + record_lines(sort_by_fqdn(records))
        + "\n"@
}

/// A rendered fragment and the number of records in it, duplicates included.
#[derive(Debug, PartialEq, Eq)]
pub struct ZoneFragment {
    pub content: String,
    pub records_written: usize,
}

/// Renders the fragment of one source. The records are sorted by FQDN in
/// place before they are rendered.
pub fn render_dns_records(dns_records: &mut Vec<DnsRecord>, source_name: &str) -> (fragment:
    ZoneFragment)
    ensures
        batch_view(final(dns_records)@) == sort_by_fqdn(batch_view(old(dns_records)@)),
        fragment.content@ == fragment_text(source_name@, batch_view(old(dns_records)@)),
        fragment.records_written == old(dns_records).len(),
{
    let mut content = String::from_str("; Source: ");
    content.append(source_name);
    content.append("\n");
    if dns_records.len() == 0 {
        content.append("; No DNS records found\n");
    }
    proof {
        lemma_sort_len(batch_view(dns_records@));
    }
    sort_records_by_fqdn(dns_records);
    let ghost start = fragment_header(source_name@) + empty_marker(batch_view(old(dns_records)@));
    let ghost sorted = batch_view(dns_records@);
    let mut records_written: usize = 0;
    proof {
        assert(content@ =~= start + record_lines(sorted.take(0)));
    }
    while records_written < dns_records.len()
        invariant
            records_written <= dns_records.len(),
            sorted == batch_view(dns_records@),
            content@ == start + record_lines(sorted.take(records_written as int)),
        decreases dns_records.len() - records_written,
    {
        let record = &dns_records[records_written];
        if record.is_duplicate {
            content.append("; ");
            content.append(record.a_record.as_str());
            content.append(" - Duplicate");
            content.append("\n");
        } else {
            content.append(record.a_record.as_str());
            content.append("\n");
        }
        proof {
            let upto = sorted.take(records_written + 1);
            assert(upto.drop_last() =~= sorted.take(records_written as int));
            assert(upto.last() == record@);
            assert(content@ =~= start + record_lines(upto));
        }
        records_written += 1;
    }
    content.append("\n");
    proof {
        assert(sorted.take(records_written as int) =~= sorted);
    }
    ZoneFragment { content, records_written }
}

/// Ordering: a fragment lists the records of its batch in ascending order of
/// FQDN, each record once for every time it is in the batch.
pub proof fn lemma_fragment_is_ordered(source_name: Seq<char>, records: Seq<DnsRecordView>)
    ensures
        sorted_by_fqdn(sort_by_fqdn(records)),
        sort_by_fqdn(records).to_multiset() == records.to_multiset(),
        fragment_text(source_name, records) == fragment_header(source_name) + empty_marker(records)
            + record_lines(sort_by_fqdn(records)) + "\n"@,
{
    lemma_sort_is_sorted(records);
    lemma_sort_is_permutation(records);
}

/// A batch that is rendered again after it was sorted gives the same
/// fragment.
pub proof fn lemma_fragment_of_sorted_batch(source_name: Seq<char>, records: Seq<DnsRecordView>)
    ensures
        fragment_text(source_name, sort_by_fqdn(records)) == fragment_text(source_name, records),
{
    lemma_sort_len(records);
    lemma_sort_idempotent(records);
}

/// The fragment of an empty batch is the header, the line that says that no
/// records were found, and the closing blank line.
pub proof fn lemma_empty_fragment(source_name: Seq<char>)
    ensures
        fragment_text(source_name, Seq::empty()) == "; Source: "@ + source_name + "\n"@
            + "; No DNS records found\n"@ + "\n"@,
{
    let none = Seq::<DnsRecordView>::empty();
    assert(record_lines(sort_by_fqdn(none)) =~= Seq::<char>::empty());
    assert(fragment_text(source_name, none) =~= "; Source: "@ + source_name + "\n"@
        + "; No DNS records found\n"@ + "\n"@);
}

/// A file that the merge reads: its path, and its content where it exists.
#[derive(Debug, PartialEq, Eq)]
pub struct SourceFile {
    pub path: String,
    pub content: Option<String>,
}

/// The mathematical value of a [`SourceFile`].
pub struct SourceFileView {
    pub path: Seq<char>,
    pub content: Option<Seq<char>>,
}

impl View for SourceFile {
    type V = SourceFileView;

    open spec fn view(&self) -> SourceFileView {
        SourceFileView {
            path: self.path@,
            content: match self.content {
                Some(text) => Some(text@),
                None => None,
            },
        }
    }
}

/// The views of a list of files, in order.
pub open spec fn files_view(files: Seq<SourceFile>) -> Seq<SourceFileView> {
    files.map_values(|file: SourceFile| file@)
}

/// Why nothing was merged.
#[derive(Debug, PartialEq, Eq)]
pub enum MergeError {
    /// The list of source files is empty.
    NoSourceFiles,
    /// A listed source file does not exist; `path` is the first such file.
    SourceFileNotFound { path: String },
}

/// Every file of the list exists.
pub open spec fn all_present(files: Seq<SourceFileView>) -> bool {
    forall|i: int| 0 <= i < files.len() ==> (#[trigger] files[i]).content is Some
}

/// The file at `at` is the first of the list that does not exist.
pub open spec fn first_missing_at(files: Seq<SourceFileView>, at: int) -> bool {
    &&& 0 <= at < files.len()
    &&& files[at].content is None
    &&& forall|j: int| 0 <= j < at ==> (#[trigger] files[j]).content is Some
}

/// The three lines that open the destination file.
pub open spec fn banner() -> Seq<char> {
    "; This file was generated by the coredns-k8s-sync module\n"@
        + "; Do not edit this file manually\n"@ + "; Original Source\n"@
}

/// What the destination file holds for one source file: a blank line, a
/// comment with the path, the content as it is, and two line ends.
pub open spec fn section_text(file: SourceFileView) -> Seq<char> {
    "\n"@ + "; Source File: "@ + file.path + "\n"@ + (match file.content {
        Some(text) => text,
        None => Seq::empty(),
    }) + "\n"@ + "\n"@
}

/// The sections of `files`, in order.
pub open spec fn sections_text(files: Seq<SourceFileView>) -> Seq<char>
    decreases files.len(),
{
    if files.len() == 0 {
        Seq::empty()
    } else {
        sections_text(files.drop_last()) + section_text(files.last())
    }
}

/// The destination file for `files`: the banner and one section per file.
pub open spec fn merged_text(files: Seq<SourceFileView>) -> Seq<char> {
    banner() + sections_text(files)
}

/// What a merge of `files` writes: the merged text where there is at least
/// one file and all of them exist, and nothing otherwise.
pub open spec fn merge_outcome(files: Seq<SourceFileView>) -> Option<Seq<char>> {
    if files.len() > 0 && all_present(files) {
        Some(merged_text(files))
    } else {
        None
    }
}

/// Merges the source files, static fragments first, into the text of the
/// destination file.
///
/// Nothing is merged where the list is empty or one of the files does not
/// exist: the caller then has no text to write, so the destination file
/// stays as it was.
pub fn merge_source_contents(files: &Vec<SourceFile>) -> (merged: Result<String, MergeError>)
    ensures
        match merged {
            Ok(text) => {
                &&& files.len() > 0
                &&& all_present(files_view(files@))
                &&& text@ == merged_text(files_view(files@))
            },
            Err(MergeError::NoSourceFiles) => files.len() == 0,
            Err(MergeError::SourceFileNotFound { path }) => exists|at: int|
                first_missing_at(files_view(files@), at) && path@ == (#[trigger] files[at]).path@,
        },
        merged is Ok <==> merge_outcome(files_view(files@)) is Some,
{
    if files.len() == 0 {
        return Err(MergeError::NoSourceFiles);
    }
    let ghost views = files_view(files@);
    let mut text = String::from_str("; This file was generated by the coredns-k8s-sync module\n");
    text.append("; Do not edit this file manually\n");
    text.append("; Original Source\n");
    let mut i: usize = 0;
    proof {
        assert(text@ =~= banner() + sections_text(views.take(0)));
    }
    while i < files.len()
        invariant
            i <= files.len(),
            views == files_view(files@),
            forall|j: int| 0 <= j < i ==> (#[trigger] views[j]).content is Some,
            text@ == banner() + sections_text(views.take(i as int)),
        decreases files.len() - i,
    {
        let file = &files[i];
        match &file.content {
            None => {
                proof {
                    assert(first_missing_at(views, i as int));
                }
                return Err(MergeError::SourceFileNotFound { path: file.path.clone() });
            },
            Some(content) => {
                text.append("\n");
                text.append("; Source File: ");
                text.append(file.path.as_str());
                text.append("\n");
                text.append(content.as_str());
                text.append("\n");
                text.append("\n");
                proof {
                    let upto = views.take(i + 1);
                    assert(upto.drop_last() =~= views.take(i as int));
                    assert(upto.last() == file@);
                    assert(text@ =~= banner() + sections_text(upto));
                }
            },
        }
        i += 1;
    }
    proof {
        assert(views.take(i as int) =~= views);
    }
    Ok(text)
}

/// Missing-source guard: where any listed file does not exist, nothing is
/// merged.
pub proof fn lemma_missing_source_blocks_merge(files: Seq<SourceFileView>, at: int)
    requires
        0 <= at < files.len(),
        files[at].content is None,
    ensures
        merge_outcome(files) is None,
{
}

/// Idempotence: the merged text depends on nothing but the paths and the
/// contents of the files, in their order. Merging the same files again gives
/// the same text, byte for byte.
pub proof fn lemma_merge_is_repeatable(first: Seq<SourceFile>, second: Seq<SourceFile>)
    requires
        files_view(first) == files_view(second),
    ensures
        merge_outcome(files_view(first)) == merge_outcome(files_view(second)),
        merge_outcome(files_view(first)) matches Some(text) ==> vstd::utf8::encode_utf8(text)
            == vstd::utf8::encode_utf8(merge_outcome(files_view(second))->0),
{
}

/// Where the fragment of a source is kept: the name of the source, with the
/// extension `.txt`, under the storage path.
pub open spec fn fragment_path(temp_storage_path: Seq<char>, source_name: Seq<char>) -> Seq<char> {
    temp_storage_path + source_name + ".txt"@
}

/// The path of the fragment file of `source_name`.
pub fn fragment_file_path(temp_storage_path: &str, source_name: &str) -> (path: String)
    ensures
        path@ == fragment_path(temp_storage_path@, source_name@),
{
    let mut path = String::from_str(temp_storage_path);
    path.append(source_name);
    path.append(".txt");
    path
}

/// A fragment file to write: where, what, and how many records it holds.
#[derive(Debug, PartialEq, Eq)]
pub struct FragmentFile {
    pub path: String,
    pub content: String,
    pub records_written: usize,
}

/// The mathematical value of a [`FragmentFile`].
pub struct FragmentFileView {
    pub path: Seq<char>,
    pub content: Seq<char>,
    pub records_written: nat,
}

impl View for FragmentFile {
    type V = FragmentFileView;

    open spec fn view(&self) -> FragmentFileView {
        FragmentFileView {
            path: self.path@,
            content: self.content@,
            records_written: self.records_written as nat,
        }
    }
}

/// The views of a list of fragment files, in order.
pub open spec fn fragment_files_view(files: Seq<FragmentFile>) -> Seq<FragmentFileView> {
    files.map_values(|file: FragmentFile| file@)
}

/// The fragment file of the source `source_name` with the batch `records`.
pub open spec fn fragment_file(
    temp_storage_path: Seq<char>,
    source_name: Seq<char>,
    records: Seq<DnsRecordView>,
) -> FragmentFileView {
    FragmentFileView {
        path: fragment_path(temp_storage_path, source_name),
        content: fragment_text(source_name, records),
        records_written: records.len(),
    }
}

/// The names of the first `count` of `sources`.
pub open spec fn source_names_among(sources: Seq<ExternalSourceView>, count: int) -> Set<
    Seq<char>,
>
    recommends
        0 <= count <= sources.len(),
{
    Set::new(
        |name: Seq<char>|
            exists|j: int| 0 <= j < count && (#[trigger] sources[j]).source_name == name,
    )
}

/// The fragment files of a cycle: one for each source name that has a batch
/// in `collection`, in the order in which the names first occur in `sources`.
pub open spec fn planned_fragments(
    sources: Seq<ExternalSourceView>,
    collection: Map<Seq<char>, Seq<DnsRecordView>>,
    temp_storage_path: Seq<char>,
) -> Seq<FragmentFileView>
    decreases sources.len(),
{
    if sources.len() == 0 {
        Seq::empty()
    } else {
        let before = planned_fragments(sources.drop_last(), collection, temp_storage_path);
        let name = sources.last().source_name;
        if collection.contains_key(name) && !source_names_among(
            sources,
            sources.len() - 1,
        ).contains(name) {
            before.push(fragment_file(temp_storage_path, name, collection[name]))
        } else {
            before
        }
    }
}

proof fn lemma_source_names_among_next(sources: Seq<ExternalSourceView>, count: int)
    requires
        0 <= count < sources.len(),
    ensures
        source_names_among(sources, count + 1) == source_names_among(sources, count).insert(
            sources[count].source_name,
        ),
        source_names_among(sources.take(count + 1), count) == source_names_among(sources, count),
{
    let more = source_names_among(sources, count + 1);
    let less = source_names_among(sources, count).insert(sources[count].source_name);
    assert forall|name: Seq<char>| more.contains(name) <==> less.contains(name) by {
        if more.contains(name) {
            let j = choose|j: int|
                0 <= j < count + 1 && (#[trigger] sources[j]).source_name == name;
            if j < count {
                assert(source_names_among(sources, count).contains(name));
            }
        }
        if source_names_among(sources, count).contains(name) {
            let j = choose|j: int| 0 <= j < count && (#[trigger] sources[j]).source_name == name;
            assert(0 <= j < count + 1 && sources[j].source_name == name);
        }
        if name == sources[count].source_name {
            assert(0 <= count < count + 1 && sources[count].source_name == name);
        }
    }
    assert(more =~= less);
    let upto = sources.take(count + 1);
    let cut = source_names_among(upto, count);
    let whole = source_names_among(sources, count);
    assert forall|name: Seq<char>| cut.contains(name) <==> whole.contains(name) by {
        if cut.contains(name) {
            let j = choose|j: int| 0 <= j < count && (#[trigger] upto[j]).source_name == name;
            assert(sources[j].source_name == name);
        }
        if whole.contains(name) {
            let j = choose|j: int| 0 <= j < count && (#[trigger] sources[j]).source_name == name;
            assert(upto[j].source_name == name);
        }
    }
    assert(cut =~= whole);
}

/// Renders the fragment file of every source that has a batch in
/// `collection`, in the order of `sources`. A source name that is configured
/// more than once gets one file.
pub fn render_fragments(
    sources: &Vec<ExternalSource>,
    collection: &StringHashMap<Vec<DnsRecord>>,
    temp_storage_path: &str,
) -> (files: Vec<FragmentFile>)
    ensures
        fragment_files_view(files@) == planned_fragments(
            sources_view(sources@),
            collection_view(collection@),
            temp_storage_path@,
        ),
{
    let ghost names = sources_view(sources@);
    let ghost batches = collection_view(collection@);
    let mut files: Vec<FragmentFile> = Vec::new();
    let mut visited = StringHashSet::new();
    let mut i: usize = 0;
    proof {
        assert(names.take(0) =~= Seq::empty());
        assert(fragment_files_view(files@) =~= Seq::empty());
        assert(visited@ =~= source_names_among(names, 0));
    }
    while i < sources.len()
        invariant
            i <= sources.len(),
            names == sources_view(sources@),
            batches == collection_view(collection@),
            visited@ == source_names_among(names, i as int),
            fragment_files_view(files@) == planned_fragments(
                names.take(i as int),
                batches,
                temp_storage_path@,
            ),
        decreases sources.len() - i,
    {
        let name = sources[i].source_name.as_str();
        let ghost before = fragment_files_view(files@);
        proof {
            lemma_source_names_among_next(names, i as int);
            assert(names.take(i + 1).drop_last() =~= names.take(i as int));
            assert(names.take(i + 1).last() == sources[i as int]@);
        }
        if !visited.contains(name) {
            visited.insert(sources[i].source_name.clone());
            match collection.get(name) {
                Some(records) => {
                    let mut batch = clone_records(records);
                    let fragment = render_dns_records(&mut batch, name);
                    files.push(
                        FragmentFile {
                            path: fragment_file_path(temp_storage_path, name),
                            content: fragment.content,
                            records_written: fragment.records_written,
                        },
                    );
                    proof {
                        assert(fragment_files_view(files@) =~= before.push(
                            fragment_file(temp_storage_path@, name@, batches[name@]),
                        ));
                    }
                },
                None => {},
            }
        }
        proof {
            assert(visited@ =~= source_names_among(names, i + 1));
        }
        i += 1;
    }
    proof {
        assert(names.take(i as int) =~= names);
    }
    files
}

} // verus!
