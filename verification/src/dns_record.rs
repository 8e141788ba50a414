//! One DNS "A" record as a source reports it, together with the zone-file line
//! rendered from it.

use crate::text::{
    byte_len, ends_with, lemma_byte_len_concat, lemma_byte_len_spaces, lemma_encode_concat,
    lemma_spaces_concat, spaces,
};
use vstd::prelude::*;
use vstd::string::*;
use vstd::utf8::*;

verus! {

/// A record as returned by a source, extended with the two fields that a
/// collection cycle derives: the rendered zone line and the duplicate mark.
#[derive(Debug, PartialEq)]
pub struct DnsRecord {
    pub cluster_ip: String,
    pub cluster_name: String,
    pub controller: String,
    pub fqdn: String,
    pub a_record: String,
    pub ip: String,
    pub kind: String,
    pub namespace: String,
    pub port: String,
    pub is_duplicate: bool,
}

/// The mathematical value of a [`DnsRecord`].
pub struct DnsRecordView {
    pub cluster_ip: Seq<char>,
    pub cluster_name: Seq<char>,
    pub controller: Seq<char>,
    pub fqdn: Seq<char>,
    pub a_record: Seq<char>,
    pub ip: Seq<char>,
    pub kind: Seq<char>,
    pub namespace: Seq<char>,
    pub port: Seq<char>,
    pub is_duplicate: bool,
}

impl View for DnsRecord {
    type V = DnsRecordView;

    open spec fn view(&self) -> DnsRecordView {
        DnsRecordView {
            cluster_ip: self.cluster_ip@,
            cluster_name: self.cluster_name@,
            controller: self.controller@,
            fqdn: self.fqdn@,
            a_record: self.a_record@,
            ip: self.ip@,
            kind: self.kind@,
            namespace: self.namespace@,
            port: self.port@,
            is_duplicate: self.is_duplicate,
        }
    }
}

impl Clone for DnsRecord {
    fn clone(&self) -> (copy: DnsRecord)
        ensures
            copy@ == self@,
    {
        DnsRecord {
            cluster_ip: self.cluster_ip.clone(),
            cluster_name: self.cluster_name.clone(),
            controller: self.controller.clone(),
            fqdn: self.fqdn.clone(),
            a_record: self.a_record.clone(),
            ip: self.ip.clone(),
            kind: self.kind.clone(),
            namespace: self.namespace.clone(),
            port: self.port.clone(),
            is_duplicate: self.is_duplicate,
        }
    }
}

impl Default for DnsRecord {
    fn default() -> (record: DnsRecord)
        ensures
            record@ == DnsRecordView::blank(),
    {
        DnsRecord {
            cluster_ip: String::new(),
            cluster_name: String::new(),
            controller: String::new(),
            fqdn: String::new(),
            a_record: String::new(),
            ip: String::new(),
            kind: String::new(),
            namespace: String::new(),
            port: String::new(),
            is_duplicate: false,
        }
    }
}

impl DnsRecordView {
    /// The record whose texts are all empty and which is no duplicate.
    pub open spec fn blank() -> DnsRecordView {
        DnsRecordView {
            cluster_ip: Seq::empty(),
            cluster_name: Seq::empty(),
            controller: Seq::empty(),
            fqdn: Seq::empty(),
            a_record: Seq::empty(),
            ip: Seq::empty(),
            kind: Seq::empty(),
            namespace: Seq::empty(),
            port: Seq::empty(),
            is_duplicate: false,
        }
    }
}

/// The views of a list of records, in order.
pub open spec fn batch_view(records: Seq<DnsRecord>) -> Seq<DnsRecordView> {
    records.map_values(|record: DnsRecord| record@)
}

/// Copies a list of records.
pub fn clone_records(records: &Vec<DnsRecord>) -> (copy: Vec<DnsRecord>)
    ensures
        batch_view(copy@) == batch_view(records@),
{
    let mut copy: Vec<DnsRecord> = Vec::new();
    let mut i: usize = 0;
    while i < records.len()
        invariant
            i <= records.len(),
            copy.len() == i,
            forall|k: int| 0 <= k < i ==> copy[k]@ == records[k]@,
        decreases records.len() - i,
    {
        copy.push(records[i].clone());
        i += 1;
    }
    proof {
        assert(batch_view(copy@) =~= batch_view(records@));
    }
    copy
}

/// The text that describes a record: its fields as reported, one per line.
pub open spec fn record_description(record: DnsRecordView) -> Seq<char> {
    "Cluster IP: "@ + record.cluster_ip + "\nCluster Name: "@ + record.cluster_name
        + "\nController: "@ + record.controller + "\nFQDN: "@ + record.fqdn + "\nIP: "@ + record.ip
        + "\nKind: "@ + record.kind + "\nNamespace: "@ + record.namespace + "\nPort: "@
        + record.port + "\n"@
}

/// What is stripped from a name that lies under `domain`: a dot and the domain.
pub open spec fn domain_suffix(domain: Seq<char>) -> Seq<char> {
    seq!['.'] + domain
}

/// The host label of `fqdn` under `domain`: the name without one trailing
/// `"." + domain`, or the whole name where it does not end that way.
pub open spec fn host_label(fqdn: Seq<char>, domain: Seq<char>) -> Seq<char> {
    if ends_with(fqdn, domain_suffix(domain)) {
        fqdn.subrange(0, fqdn.len() - domain_suffix(domain).len())
    } else {
        fqdn
    }
}

/// How many spaces bring a label of `len` bytes up to `width` bytes.
pub open spec fn padding_count(len: nat, width: nat) -> nat {
    if len <= width {
        (width - len) as nat
    } else {
        0
    }
}

/// `label` followed by the spaces that fill it up to `width` bytes; a label
/// that is already wider is left as it is.
pub open spec fn padded_label(label: Seq<char>, width: nat) -> Seq<char> {
    label + spaces(padding_count(byte_len(label), width))
}

/// The zone-file line of a record: its padded host label, the token
/// `" IN A "` and its address.
pub open spec fn a_record_line(
    fqdn: Seq<char>,
    domain: Seq<char>,
    ip: Seq<char>,
    width: nat,
) -> Seq<char> {
    padded_label(host_label(fqdn, domain), width) + " IN A "@ + ip
}

/// The token `" IN A "` stands in `line` at byte offset `column`.
pub open spec fn in_a_token_at(line: Seq<char>, column: nat) -> bool {
    &&& column + 6 <= byte_len(line)
    &&& encode_utf8(line).subrange(column as int, column as int + 6) == seq![
        0x20u8,
        0x49u8,
        0x4eu8,
        0x20u8,
        0x41u8,
        0x20u8,
    ]
}

/// A label no wider than `width` is padded to exactly `width` bytes, and the
/// token `" IN A "` follows at that offset.
pub proof fn lemma_a_record_line_column(
    fqdn: Seq<char>,
    domain: Seq<char>,
    ip: Seq<char>,
    width: nat,
)
    requires
        byte_len(host_label(fqdn, domain)) <= width,
    ensures
        byte_len(padded_label(host_label(fqdn, domain), width)) == width,
        in_a_token_at(a_record_line(fqdn, domain, ip, width), width),
{
    let label = host_label(fqdn, domain);
    let padded = padded_label(label, width);
    let token = " IN A "@;
    lemma_byte_len_concat(label, spaces(padding_count(byte_len(label), width)));
    lemma_byte_len_spaces(padding_count(byte_len(label), width));
    lemma_encode_concat(padded, token);
    lemma_encode_concat(padded + token, ip);
    reveal_strlit(" IN A ");
    is_ascii_chars_encode_utf8(token);
    let line = encode_utf8(a_record_line(fqdn, domain, ip, width));
    assert(line.subrange(width as int, width as int + 6) =~= encode_utf8(token));
    assert(encode_utf8(token) =~= seq![0x20u8, 0x49u8, 0x4eu8, 0x20u8, 0x41u8, 0x20u8]);
}

/// A name that ends with a suffix also ends with it byte for byte.
proof fn lemma_suffix_to_bytes(text: Seq<char>, suffix: Seq<char>)
    requires
        ends_with(text, suffix),
    ensures
        ({
            let x = encode_utf8(text);
            let y = encode_utf8(suffix);
            &&& y.len() <= x.len()
            &&& x.subrange(x.len() - y.len(), x.len() as int) == y
        }),
{
    let head = text.subrange(0, text.len() - suffix.len());
    assert(text =~= head + suffix);
    lemma_encode_concat(head, suffix);
    let x = encode_utf8(text);
    let y = encode_utf8(suffix);
    assert(x.subrange(x.len() - y.len(), x.len() as int) =~= y);
}

/// A name whose bytes end with those of a non-empty suffix ends with the
/// suffix, and what stands before it is cut at a character boundary.
proof fn lemma_suffix_from_bytes(text: Seq<char>, suffix: Seq<char>)
    requires
        suffix.len() > 0,
        encode_utf8(suffix).len() <= encode_utf8(text).len(),
        encode_utf8(text).subrange(
            encode_utf8(text).len() - encode_utf8(suffix).len(),
            encode_utf8(text).len() as int,
        ) == encode_utf8(suffix),
    ensures
        ends_with(text, suffix),
        is_char_boundary(encode_utf8(text), encode_utf8(text).len() - encode_utf8(suffix).len()),
        encode_utf8(text.subrange(0, text.len() - suffix.len())) == encode_utf8(text).subrange(
            0,
            encode_utf8(text).len() - encode_utf8(suffix).len(),
        ),
{
    let x = encode_utf8(text);
    let y = encode_utf8(suffix);
    let mid = x.len() - y.len();
    encode_utf8_valid_utf8(text);
    encode_utf8_valid_utf8(suffix);
    encode_utf8_decode_utf8(text);
    encode_utf8_decode_utf8(suffix);
    assert(y.len() > 0) by {
        if y.len() == 0 {
            assert(decode_utf8(y) =~= Seq::<char>::empty());
        }
    }
    is_char_boundary_start_end_of_seq(y);
    is_char_boundary_iff_not_is_continuation_byte(y, 0);
    assert(x[mid] == y[0]);
    is_char_boundary_iff_not_is_continuation_byte(x, mid);
    decode_utf8_split(x, mid);
    valid_utf8_split(x, mid);
    let head = decode_utf8(x.subrange(0, mid));
    assert(text =~= head + suffix);
    assert(text.subrange(text.len() - suffix.len(), text.len() as int) =~= suffix);
    assert(text.subrange(0, text.len() - suffix.len()) =~= head);
    decode_utf8_encode_utf8(x.subrange(0, mid));
}

/// The bytes of `"." + domain` are a full stop and the bytes of the domain.
proof fn lemma_domain_suffix_bytes(domain: Seq<char>)
    ensures
        encode_utf8(domain_suffix(domain)) == seq![0x2eu8] + encode_utf8(domain),
{
    lemma_encode_concat(seq!['.'], domain);
    is_ascii_chars_encode_utf8(seq!['.']);
    assert(encode_utf8(seq!['.']) =~= seq![0x2eu8]);
}

/// Strips one trailing `"." + domain_name` from `fqdn`.
pub fn strip_domain<'a>(fqdn: &'a str, domain_name: &str) -> (label: &'a str)
    ensures
        label@ == host_label(fqdn@, domain_name@),
{
    let name = fqdn.as_bytes();
    let domain = domain_name.as_bytes();
    let n = name.len();
    let m = domain.len();
    proof {
        lemma_domain_suffix_bytes(domain_name@);
        if ends_with(fqdn@, domain_suffix(domain_name@)) {
            lemma_suffix_to_bytes(fqdn@, domain_suffix(domain_name@));
        }
    }
    if n <= m {
        return fqdn;
    }
    let mid = n - m - 1;
    if name[mid] != 0x2e {
        proof {
            if ends_with(fqdn@, domain_suffix(domain_name@)) {
                assert(name@.subrange(mid as int, n as int)[0] == 0x2eu8);
            }
        }
        return fqdn;
    }
    let mut i: usize = 0;
    while i < m
        invariant
            name@ == encode_utf8(fqdn@),
            domain@ == encode_utf8(domain_name@),
            n == name.len(),
            m == domain.len(),
            mid + 1 + m == n,
            i <= m,
            forall|j: int| 0 <= j < i ==> name[mid + 1 + j] == domain[j],
            ends_with(fqdn@, domain_suffix(domain_name@)) ==> name@.subrange(mid as int, n as int)
                == seq![0x2eu8] + domain@,
        decreases m - i,
    {
        if name[mid + 1 + i] != domain[i] {
            proof {
                if ends_with(fqdn@, domain_suffix(domain_name@)) {
                    assert(name@.subrange(mid as int, n as int)[1 + i] == domain@[i as int]);
                }
            }
            return fqdn;
        }
        i += 1;
    }
    proof {
        assert(name@.subrange(mid as int, n as int) =~= seq![0x2eu8] + domain@);
        lemma_suffix_from_bytes(fqdn@, domain_suffix(domain_name@));
    }
    let (label, _) = fqdn.split_at(mid);
    proof {
        encode_utf8_decode_utf8(label@);
        encode_utf8_decode_utf8(host_label(fqdn@, domain_name@));
    }
    label
}

/// Appends `count` spaces to `text`.
pub fn push_spaces(text: &mut String, count: usize)
    ensures
        final(text)@ == old(text)@ + spaces(count as nat),
{
    let mut done: usize = 0;
    proof {
        assert(text@ =~= old(text)@ + spaces(0));
    }
    while done < count
        invariant
            done <= count,
            text@ == old(text)@ + spaces(done as nat),
        decreases count - done,
    {
        text.append(" ");
        done += 1;
        proof {
            reveal_strlit(" ");
            assert(text@ =~= old(text)@ + spaces(done as nat));
        }
    }
}

impl DnsRecordView {
    /// This record with its zone line replaced by `line`.
    pub open spec fn with_a_record(self, line: Seq<char>) -> DnsRecordView {
        DnsRecordView { a_record: line, ..self }
    }

    /// This record with its duplicate mark set to `is_duplicate`.
    pub open spec fn with_duplicate_mark(self, is_duplicate: bool) -> DnsRecordView {
        DnsRecordView { is_duplicate, ..self }
    }
}

impl DnsRecord {
    /// Describes this record in eight lines, one per reported field.
    pub fn to_display_string(&self) -> (text: String)
        ensures
            text@ == record_description(self@),
    {
        let mut text = String::from_str("Cluster IP: ");
        text.append(self.cluster_ip.as_str());
        text.append("\nCluster Name: ");
        text.append(self.cluster_name.as_str());
        text.append("\nController: ");
        text.append(self.controller.as_str());
        text.append("\nFQDN: ");
        text.append(self.fqdn.as_str());
        text.append("\nIP: ");
        text.append(self.ip.as_str());
        text.append("\nKind: ");
        text.append(self.kind.as_str());
        text.append("\nNamespace: ");
        text.append(self.namespace.as_str());
        text.append("\nPort: ");
        text.append(self.port.as_str());
        text.append("\n");
        text
    }

    /// Renders the zone line for a batch whose column is `base + extra` bytes
    /// wide, without ever adding the two.
    pub(crate) fn render_a_record(&mut self, domain_name: &str, base: usize, extra: usize)
        ensures
            final(self)@ == old(self)@.with_a_record(
                a_record_line(old(self).fqdn@, domain_name@, old(self).ip@, (base + extra) as nat),
            ),
    {
        let label = strip_domain(self.fqdn.as_str(), domain_name);
        let len = label.as_bytes().len();
        let mut line = String::from_str(label);
        if len <= base {
            push_spaces(&mut line, base - len);
            push_spaces(&mut line, extra);
            proof {
                lemma_spaces_concat((base - len) as nat, extra as nat);
                assert(line@ =~= label@ + spaces((base - len + extra) as nat));
            }
        } else if len - base < extra {
            push_spaces(&mut line, extra - (len - base));
        } else {
            proof {
                assert(line@ =~= label@ + spaces(0));
            }
        }
        assert(line@ == padded_label(label@, (base + extra) as nat));
        line.append(" IN A ");
        line.append(self.ip.as_str());
        self.a_record = line;
    }

    /// Sets `a_record` to the zone line of this record under `domain_name`,
    /// with the host label padded to `padding_length` bytes.
    ///
    /// A label that is longer than `padding_length` gets no padding.
    pub fn set_a_record(&mut self, domain_name: &str, padding_length: usize)
        ensures
            final(self)@ == old(self)@.with_a_record(
                a_record_line(
                    old(self).fqdn@,
                    domain_name@,
                    old(self).ip@,
                    padding_length as nat,
                ),
            ),
    {
        self.render_a_record(domain_name, padding_length, 0);
    }
}

} // verus!
