//! A parser and writer for the Variant Call Format (VCF): a tab-delimited,
//! line-oriented text format for genomic variant records with per-sample
//! genotype data.  Headers keep their raw bytes; records decompose into
//! structured byte-string fields with constant-time INFO and genotype
//! lookup, their values percent-decoded through the codec on the way in and
//! re-escaped on the way out, so a parsed stream writes back byte-exactly.

use vstd::prelude::*;

mod bytestr;
pub mod codec;
mod error;
pub mod header;
mod kvlist;
mod tokens;
pub mod record;

pub use error::VCFError;
pub use header::{
    parse_header, Number, VCFHeader, VCFHeaderContent, VCFHeaderFilterAlt, VCFHeaderInfoFormat,
    VCFHeaderLine, VCFVersion, ValueType,
};
pub use record::VCFRecord;

verus! {

pub type U8Vec = Vec<u8>;

/// Relies on `std::io::BufRead::read_until`: reads bytes from the stream up to
/// and including the next `\n` (or to end of stream), appends them to `buf`,
/// and returns how many bytes were appended.
#[verifier::external_body]
pub(crate) fn read_until_newline<R: std::io::BufRead>(reader: &mut R, buf: &mut Vec<u8>) -> (r: Result<
    usize,
    std::io::Error,
>)
    ensures
        r matches Ok(n) ==> final(buf)@.len() == old(buf)@.len() + n
            && final(buf)@.take(old(buf)@.len() as int) == old(buf)@,
{
    reader.read_until(b'\n', buf)
}

/// Relies on `std::io::Write::write_all`: writes the whole buffer to the
/// stream, or reports the stream's error.
#[verifier::external_body]
pub(crate) fn write_all_bytes<W: std::io::Write>(writer: &mut W, bytes: &[u8]) -> (r: Result<
    (),
    std::io::Error,
>) {
    writer.write_all(bytes)
}

/// The raw bytes of every header line, the `#CHROM` column header, the
/// sample names when any exist, and the final newline.
pub open spec fn spec_lines_concat(items: Seq<header::VCFHeaderLine>) -> Seq<u8>
    decreases items.len(),
{
    if items.len() == 0 {
        Seq::empty()
    } else {
        items[0].spec_line() + spec_lines_concat(items.drop_first())
    }
}

pub open spec fn spec_samples_concat(samples: Seq<Vec<u8>>) -> Seq<u8>
    decreases samples.len(),
{
    if samples.len() == 0 {
        Seq::empty()
    } else {
        seq!['\t' as u8] + samples[0]@ + spec_samples_concat(samples.drop_first())
    }
}

/// The exact bytes `VCFWriter::new` emits for `h`.
pub open spec fn spec_header_bytes(h: header::VCFHeader) -> Seq<u8> {
    spec_lines_concat(h.spec_items()) + crate::tokens::lit_column_header() + (
    if h.spec_samples().len() == 0 {
        Seq::<u8>::empty()
    } else {
        crate::tokens::lit_opt_format() + spec_samples_concat(h.spec_samples())
    }) + seq!['\n' as u8]
}

/// The serialized header block: every header line verbatim, then the column
/// header, then `FORMAT` and the sample names when samples exist.
pub fn header_bytes(header: &header::VCFHeader) -> (r: Vec<u8>)
    ensures
        r@ == spec_header_bytes(*header),
{
    let mut out: Vec<u8> = Vec::new();
    let items = header.items();
    let ghost iv = header.spec_items();
    let ghost base = out@;
    let mut i: usize = 0;
    proof {
        assert(iv.skip(0) =~= iv);
    }
    while i < items.len()
        invariant
            i <= iv.len(),
            items@ == iv,
            base + spec_lines_concat(iv) == out@ + spec_lines_concat(iv.skip(i as int)),
        decreases iv.len() - i,
    {
        let ghost before = out@;
        record::push_bytes(&mut out, items[i].line());
        proof {
            let rest = iv.skip(i as int);
            assert(rest[0] == iv[i as int]);
            assert(rest.drop_first() =~= iv.skip(i + 1));
            assert(spec_lines_concat(rest) == iv[i as int].spec_line() + spec_lines_concat(
                iv.skip(i + 1),
            ));
            assert(base + spec_lines_concat(iv) =~= out@ + spec_lines_concat(iv.skip(i + 1)));
        }
        i += 1;
    }
    proof {
        assert(spec_lines_concat(iv.skip(i as int)).len() == 0);
        assert(out@ =~= base + spec_lines_concat(iv));
    }
    let col = crate::tokens::tok_column_header();
    record::push_bytes(&mut out, col.as_slice());
    let samples = header.samples();
    let ghost sv = header.spec_samples();
    if samples.len() != 0 {
        let fmt = crate::tokens::tok_opt_format();
        record::push_bytes(&mut out, fmt.as_slice());
        let ghost base2 = out@;
        let mut j: usize = 0;
        proof {
            assert(sv.skip(0) =~= sv);
        }
        while j < samples.len()
            invariant
                j <= sv.len(),
                samples@ == sv,
                base2 + spec_samples_concat(sv) == out@ + spec_samples_concat(sv.skip(j as int)),
            decreases sv.len() - j,
        {
            let ghost before = out@;
            out.push('\t' as u8);
            record::push_bytes(&mut out, samples[j].as_slice());
            proof {
                let rest = sv.skip(j as int);
                assert(rest[0] == sv[j as int]);
                assert(rest.drop_first() =~= sv.skip(j + 1));
                assert(spec_samples_concat(rest) == seq!['\t' as u8] + sv[j as int]@
                    + spec_samples_concat(sv.skip(j + 1)));
                assert(base2 + spec_samples_concat(sv) =~= out@ + spec_samples_concat(
                    sv.skip(j + 1),
                ));
            }
            j += 1;
        }
        proof {
            assert(spec_samples_concat(sv.skip(j as int)).len() == 0);
            assert(out@ =~= base2 + spec_samples_concat(sv));
        }
    }
    out.push('\n' as u8);
    proof {
        assert(out@ =~= spec_header_bytes(*header));
    }
    out
}

/// Reads a VCF stream: the header once, then one record per call.
pub struct VCFReader<R> {
    buffer: Vec<u8>,
    unprocessed_line: Option<Vec<u8>>,
    current_line: u64,
    reader: R,
    vcf_header: header::VCFHeader,
}

impl<R: std::io::BufRead> VCFReader<R> {
    /// The header parsed from the start of the stream.
    pub closed spec fn spec_header(self) -> header::VCFHeader {
        self.vcf_header
    }

    /// The bytes of the line most recently handed to the record parser.
    pub closed spec fn spec_buffer(self) -> Seq<u8> {
        self.buffer@
    }

    /// The one-based number of the line last read from the stream.
    pub closed spec fn spec_line_num(self) -> u64 {
        self.current_line
    }

    /// The stashed line still to be replayed as the first record, if any.
    pub closed spec fn spec_pending(self) -> Option<Seq<u8>> {
        match self.unprocessed_line {
            None => None,
            Some(l) => Some(l@),
        }
    }

    /// Consumes the stream's header block.  A line that is neither a `##`
    /// header nor the `#CHROM` column header ends the block and is replayed
    /// as the first record; every header item then satisfies the header-line
    /// grammar and the samples come from a column-header line.
    pub fn new(reader: R) -> (r: Result<VCFReader<R>, VCFError>)
        ensures
            r matches Ok(rd) ==> ({
                &&& rd.spec_header().wf()
                &&& forall|j: int|
                    0 <= j < rd.spec_header().spec_items().len()
                        ==> header::parser::spec_header_item_ok(
                        (#[trigger] rd.spec_header().spec_items()[j]).spec_line(),
                    ) && header::parser::spec_content_matches(
                        rd.spec_header().spec_items()[j].spec_contents(),
                        rd.spec_header().spec_items()[j].spec_line().skip(2),
                    )
                &&& rd.spec_pending() is Some ==> rd.spec_header().spec_samples().len() == 0
                &&& rd.spec_pending() is None ==> exists|l: Seq<u8>|
                    #[trigger] header::parser::spec_samples_of(l) == Some(
                        header::views_of(rd.spec_header().spec_samples()),
                    )
            }),
    {
        let mut reader = reader;
        let (current_line, unprocessed_line, vcf_header) = match header::parse_header(
            &mut reader,
        ) {
            Ok(t) => t,
            Err(e) => {
                return Err(e);
            },
        };
        Ok(
            VCFReader {
                buffer: Vec::new(),
                unprocessed_line,
                current_line,
                reader,
                vcf_header,
            },
        )
    }

    /// Reads the next record into `record`.  A pending replay line is parsed
    /// first; otherwise the next line is read and the line counter advances.
    /// `Ok(false)` means the stream is exhausted and `record` was left
    /// alone; on `Ok(true)` the record holds exactly the parse of the line
    /// read; a line that fails the record grammar is reported, with the line
    /// counter's value, as a record parse error that leaves `record` alone.
    pub fn next_record(&mut self, record: &mut record::VCFRecord) -> (r: Result<bool, VCFError>)
        ensures
            r matches Ok(true) ==> ({
                let pr = record::parser::spec_parse_record(final(self).spec_buffer());
                &&& pr is Some
                &&& record::spec_record_view(*final(record))
                    == record::parser::ParsedRecord { end: 0, ..pr.unwrap() }
                &&& final(record).header == old(record).header
                &&& (old(record).header.wf() ==> final(record).wf())
            }),
            r matches Ok(false) ==> *final(record) == *old(record) && final(self).spec_buffer().len() == 0,
            r matches Err(e) ==> (e matches VCFError::IoError(_) || e
                matches VCFError::RecordParseError(_)),
            r matches Err(e) ==> (e matches VCFError::RecordParseError(n) ==> *final(record)
                == *old(record) && n == final(self).spec_line_num()
                && record::parser::spec_parse_record(final(self).spec_buffer()) is None),
            final(self).spec_header() == old(self).spec_header(),
            final(self).spec_pending() is None,
            old(self).spec_pending() matches Some(l) ==> final(self).spec_buffer() == l && final(self).spec_line_num() == old(self).spec_line_num(),
            old(self).spec_pending() is None && !(r matches Err(e) && e
                matches VCFError::IoError(_)) ==> final(self).spec_line_num() == (
            if old(self).spec_line_num() < u64::MAX {
                (old(self).spec_line_num() + 1) as u64
            } else {
                old(self).spec_line_num()
            }),
    {
        let mut pending: Option<Vec<u8>> = None;
        core::mem::swap(&mut self.unprocessed_line, &mut pending);
        match pending {
            Some(val) => {
                self.buffer = val;
            },
            None => {
                self.buffer.clear();
                match crate::read_until_newline(&mut self.reader, &mut self.buffer) {
                    Ok(_) => {},
                    Err(e) => {
                        return Err(VCFError::IoError(e));
                    },
                }
                if self.current_line < u64::MAX {
                    self.current_line = self.current_line + 1;
                }
            },
        }
        if self.buffer.len() == 0 {
            return Ok(false);
        }
        match record::parser::parse_record(self.buffer.as_slice(), record) {
            Ok(_) => Ok(true),
            Err(_) => Err(VCFError::RecordParseError(self.current_line)),
        }
    }

    /// The header read from the stream.
    pub fn header(&self) -> (r: &header::VCFHeader)
        ensures
            *r == self.spec_header(),
    {
        &self.vcf_header
    }
}

/// Writes a VCF stream: the header once at construction, then records.
pub struct VCFWriter<W> {
    writer: W,
}

impl<W: std::io::Write> VCFWriter<W> {
    /// Writes the serialized header block (see [`header_bytes`]) to `writer`
    /// and wraps it for record writing.
    pub fn new(writer: W, header: &header::VCFHeader) -> (r: Result<VCFWriter<W>, VCFError>) {
        let mut writer = writer;
        let bytes = header_bytes(header);
        match crate::write_all_bytes(&mut writer, bytes.as_slice()) {
            Ok(_) => Ok(VCFWriter { writer }),
            Err(e) => Err(VCFError::IoError(e)),
        }
    }

    /// Writes one record (see [`record::VCFRecord::to_line_bytes`] for the
    /// exact bytes).
    pub fn write_record(&mut self, vcf_record: &record::VCFRecord) -> (r: Result<(), VCFError>) {
        match vcf_record.write_record(&mut self.writer) {
            Ok(_) => Ok(()),
            Err(e) => Err(VCFError::IoError(e)),
        }
    }
}

} // verus!
