//! Tests for the stream reader and writer.

use std::io::BufReader;
use vcf::{VCFError, VCFReader, VCFRecord, VCFWriter};

/// The bytes of a small, well-formed VCF stream used across these tests.
fn simple_vcf_bytes() -> Vec<u8> {
    let mut v: Vec<u8> = Vec::new();
    v.extend_from_slice(b"##fileformat=VCFv4.2\n");
    v.extend_from_slice(b"##FILTER=<ID=PASS,Description=\"All filters passed\">\n");
    v.extend_from_slice(b"##ALT=<ID=NON_REF,Description=\"Represents any possible alternative allele at this location\">\n");
    v.extend_from_slice(b"##FILTER=<ID=LowQual,Description=\"Low quality\">\n");
    v.extend_from_slice(b"##FORMAT=<ID=AD,Number=R,Type=Integer,Description=\"Allelic depths for the ref and alt alleles in the order listed\">\n");
    v.extend_from_slice(b"##FORMAT=<ID=DP,Number=1,Type=Integer,Description=\"Approximate read depth (reads with MQ=255 or with bad mates are filtered)\">\n");
    v.extend_from_slice(b"##FORMAT=<ID=GT,Number=1,Type=String,Description=\"Genotype\">\n");
    v.extend_from_slice(b"##GATKCommandLine=<ID=HaplotypeCaller,CommandLine=\"HaplotypeCaller  --contamination-fraction-to-filter 0.0 --emit-ref-confidence GVCF --output ERP001775_HiSeq2000_SAMEA1531955-1.hs37d5.g.vcf.gz --intervals /cromwell-executions/VariantCall/6f09e738-2160-49dd-8287-ff8ef9368d27/call-HaplotypeCaller/shard-20/inputs/1101158470/0020-scattered.interval_list --input /cromwell-executions/VariantCall/6f09e738-2160-49dd-8287-ff8ef9368d27/call-HaplotypeCaller/shard-20/inputs/-929370236/ERP001775_HiSeq2000_SAMEA1531955-1.hs37d5.bam --reference /cromwell-executions/VariantCall/6f09e738-2160-49dd-8287-ff8ef9368d27/call-HaplotypeCaller/shard-20/inputs/865204270/hs37d5.fa  --use-new-qual-calculator true --use-old-qual-calculator false --annotate-with-num-discovered-alleles false --heterozygosity 0.001 --indel-heterozygosity 1.25E-4 --heterozygosity-stdev 0.01 --standard-min-confidence-threshold-for-calling 30.0 --max-alternate-alleles 6 --max-genotype-count 1024 --sample-ploidy 2 --num-reference-samples-if-no-call 0 --genotyping-mode DISCOVERY --genotype-filtered-alleles false --output-mode EMIT_VARIANTS_ONLY --all-site-pls false --gvcf-gq-bands 1 --gvcf-gq-bands 2 --gvcf-gq-bands 3 --gvcf-gq-bands 4 --gvcf-gq-bands 5 --gvcf-gq-bands 6 --gvcf-gq-bands 7 --gvcf-gq-bands 8 --gvcf-gq-bands 9 --gvcf-gq-bands 10 --gvcf-gq-bands 11 --gvcf-gq-bands 12 --gvcf-gq-bands 13 --gvcf-gq-bands 14 --gvcf-gq-bands 15 --gvcf-gq-bands 16 --gvcf-gq-bands 17 --gvcf-gq-bands 18 --gvcf-gq-bands 19 --gvcf-gq-bands 20 --gvcf-gq-bands 21 --gvcf-gq-bands 22 --gvcf-gq-bands 23 --gvcf-gq-bands 24 --gvcf-gq-bands 25 --gvcf-gq-bands 26 --gvcf-gq-bands 27 --gvcf-gq-bands 28 --gvcf-gq-bands 29 --gvcf-gq-bands 30 --gvcf-gq-bands 31 --gvcf-gq-bands 32 --gvcf-gq-bands 33 --gvcf-gq-bands 34 --gvcf-gq-bands 35 --gvcf-gq-bands 36 --gvcf-gq-bands 37 --gvcf-gq-bands 38 --gvcf-gq-bands 39 --gvcf-gq-bands 40 --gvcf-gq-bands 41 --gvcf-gq-bands 42 --gvcf-gq-bands 43 --gvcf-gq-bands 44 --gvcf-gq-bands 45 --gvcf-gq-bands 46 --gvcf-gq-bands 47 --gvcf-gq-bands 48 --gvcf-gq-bands 49 --gvcf-gq-bands 50 --gvcf-gq-bands 51 --gvcf-gq-bands 52 --gvcf-gq-bands 53 --gvcf-gq-bands 54 --gvcf-gq-bands 55 --gvcf-gq-bands 56 --gvcf-gq-bands 57 --gvcf-gq-bands 58 --gvcf-gq-bands 59 --gvcf-gq-bands 60 --gvcf-gq-bands 70 --gvcf-gq-bands 80 --gvcf-gq-bands 90 --gvcf-gq-bands 99 --floor-blocks false --indel-size-to-eliminate-in-ref-model 10 --use-alleles-trigger false --disable-optimizations false --just-determine-active-regions false --dont-genotype false --do-not-run-physical-phasing false --use-filtered-reads-for-annotations false --correct-overlapping-quality false --adaptive-pruning false --do-not-recover-dangling-branches false --recover-dangling-heads false --consensus false --dont-trim-active-regions false --max-disc-ar-extension 25 --max-gga-ar-extension 300 --padding-around-indels 150 --padding-around-snps 20 --kmer-size 10 --kmer-size 25 --dont-increase-kmer-sizes-for-cycles false --allow-non-unique-kmers-in-ref false --num-pruning-samples 1 --min-dangling-branch-length 4 --recover-all-dangling-branches false --max-num-haplotypes-in-population 128 --min-pruning 2 --adaptive-pruning-initial-error-rate 0.001 --pruning-lod-threshold 2.302585092994046 --max-unpruned-variants 100 --debug-assembly false --debug-graph-transformations false --capture-assembly-failure-bam false --error-correct-reads false --kmer-length-for-read-error-correction 25 --min-observations-for-kmer-to-be-solid 20 --likelihood-calculation-engine PairHMM --base-quality-score-threshold 18 --pair-hmm-gap-continuation-penalty 10 --pair-hmm-implementation FASTEST_AVAILABLE --pcr-indel-model CONSERVATIVE --phred-scaled-global-read-mismapping-rate 45 --native-pair-hmm-threads 4 --native-pair-hmm-use-double-precision false --bam-writer-type CALLED_HAPLOTYPES --dont-use-soft-clipped-bases false --min-base-quality-score 10 --smith-waterman JAVA --max-mnp-distance 0 --min-assembly-region-size 50 --max-assembly-region-size 300 --assembly-region-padding 100 --max-reads-per-alignment-start 50 --active-probability-threshold 0.002 --max-prob-propagation-distance 50 --force-active false --interval-set-rule UNION --interval-padding 0 --interval-exclusion-padding 0 --interval-merging-rule ALL --read-validation-stringency SILENT --seconds-between-progress-updates 10.0 --disable-sequence-dictionary-validation false --create-output-bam-index true --create-output-bam-md5 false --create-output-variant-index true --create-output-variant-md5 false --lenient false --add-output-sam-program-record true --add-output-vcf-command-line true --cloud-prefetch-buffer 40 --cloud-index-prefetch-buffer -1 --disable-bam-index-caching false --sites-only-vcf-output false --help false --version false --showHidden false --verbosity INFO --QUIET false --use-jdk-deflater false --use-jdk-inflater false --gcs-max-retries 20 --gcs-project-for-requester-pays  --disable-tool-default-read-filters false --minimum-mapping-quality 20 --disable-tool-default-annotations false --enable-all-annotations false --allow-old-rms-mapping-quality-annotation-data false\",Version=\"4.1.3.0\",Date=\"October 3, 2019 5:19:41 PM UTC\">\n");
    v.extend_from_slice(b"##INFO=<ID=AC,Number=A,Type=Integer,Description=\"Allele count in genotypes, for each ALT allele, in the same order as listed\">\n");
    v.extend_from_slice(b"##INFO=<ID=AF,Number=A,Type=Float,Description=\"Allele Frequency, for each ALT allele, in the same order as listed\">\n");
    v.extend_from_slice(b"##INFO=<ID=AN,Number=1,Type=Integer,Description=\"Total number of alleles in called genotypes\">\n");
    v.extend_from_slice(b"##INFO=<ID=DP,Number=1,Type=Integer,Description=\"Approximate read depth; some reads may have been filtered\">\n");
    v.extend_from_slice(b"##contig=<ID=13,length=115169878>\n");
    v.extend_from_slice(b"##contig=<ID=14,length=107349540>\n");
    v.extend_from_slice(b"##source=CombineGVCFs\n");
    v.extend_from_slice(b"##source=GenotypeGVCFs\n");
    v.extend_from_slice(b"##source=HaplotypeCaller\n");
    v.extend_from_slice(b"##bcftools_viewVersion=1.9+htslib-1.9\n");
    v.extend_from_slice(b"##bcftools_viewCommand=view -O z -o /tmp/NA12878-subset.vcf.gz -r 13:32889150-32975410,17:41194315-41277931 NA12878_comparison.genotyped.vcf.gz; Date=Sat Mar  7 20:29:56 2020\n");
    v.extend_from_slice(b"#CHROM\tPOS\tID\tREF\tALT\tQUAL\tFILTER\tINFO\tFORMAT\tERP001775_HiSeq2000_SAMEA1531955-1\tERP001775_HiSeq2000_SAMEA1531955-2\n");
    v.extend_from_slice(b"13\t32889968\trs206119,rs60320776\tG\tA\t25743.5\t.\tAC=54;AF=1;AN=54;DP=749\tGT:AD:DP\t1/1:0,14:14\t1/1:0,19:19\n");
    v.extend_from_slice(b"13\t32889969\t.\tG\tA\t.\t.\tAC=1;AF=0.5\tGT\t0/1\t1/1\n");
    v.extend_from_slice(b"14\t100\t.\tT\tC\t102.0\tPASS\tDP=10\tGT:DP\t0/0:5\t0/1:6\n");
    v
}

/// The bytes of a small, well-formed VCF stream used across these tests.
fn simple_vcf_header_bytes() -> Vec<u8> {
    let mut v: Vec<u8> = Vec::new();
    v.extend_from_slice(b"##fileformat=VCFv4.2\n");
    v.extend_from_slice(b"##FILTER=<ID=PASS,Description=\"All filters passed\">\n");
    v.extend_from_slice(b"##ALT=<ID=NON_REF,Description=\"Represents any possible alternative allele at this location\">\n");
    v.extend_from_slice(b"##FILTER=<ID=LowQual,Description=\"Low quality\">\n");
    v.extend_from_slice(b"##FORMAT=<ID=AD,Number=R,Type=Integer,Description=\"Allelic depths for the ref and alt alleles in the order listed\">\n");
    v.extend_from_slice(b"##FORMAT=<ID=DP,Number=1,Type=Integer,Description=\"Approximate read depth (reads with MQ=255 or with bad mates are filtered)\">\n");
    v.extend_from_slice(b"##FORMAT=<ID=GT,Number=1,Type=String,Description=\"Genotype\">\n");
    v.extend_from_slice(b"##GATKCommandLine=<ID=HaplotypeCaller,CommandLine=\"HaplotypeCaller  --contamination-fraction-to-filter 0.0 --emit-ref-confidence GVCF --output ERP001775_HiSeq2000_SAMEA1531955-1.hs37d5.g.vcf.gz --intervals /cromwell-executions/VariantCall/6f09e738-2160-49dd-8287-ff8ef9368d27/call-HaplotypeCaller/shard-20/inputs/1101158470/0020-scattered.interval_list --input /cromwell-executions/VariantCall/6f09e738-2160-49dd-8287-ff8ef9368d27/call-HaplotypeCaller/shard-20/inputs/-929370236/ERP001775_HiSeq2000_SAMEA1531955-1.hs37d5.bam --reference /cromwell-executions/VariantCall/6f09e738-2160-49dd-8287-ff8ef9368d27/call-HaplotypeCaller/shard-20/inputs/865204270/hs37d5.fa  --use-new-qual-calculator true --use-old-qual-calculator false --annotate-with-num-discovered-alleles false --heterozygosity 0.001 --indel-heterozygosity 1.25E-4 --heterozygosity-stdev 0.01 --standard-min-confidence-threshold-for-calling 30.0 --max-alternate-alleles 6 --max-genotype-count 1024 --sample-ploidy 2 --num-reference-samples-if-no-call 0 --genotyping-mode DISCOVERY --genotype-filtered-alleles false --output-mode EMIT_VARIANTS_ONLY --all-site-pls false --gvcf-gq-bands 1 --gvcf-gq-bands 2 --gvcf-gq-bands 3 --gvcf-gq-bands 4 --gvcf-gq-bands 5 --gvcf-gq-bands 6 --gvcf-gq-bands 7 --gvcf-gq-bands 8 --gvcf-gq-bands 9 --gvcf-gq-bands 10 --gvcf-gq-bands 11 --gvcf-gq-bands 12 --gvcf-gq-bands 13 --gvcf-gq-bands 14 --gvcf-gq-bands 15 --gvcf-gq-bands 16 --gvcf-gq-bands 17 --gvcf-gq-bands 18 --gvcf-gq-bands 19 --gvcf-gq-bands 20 --gvcf-gq-bands 21 --gvcf-gq-bands 22 --gvcf-gq-bands 23 --gvcf-gq-bands 24 --gvcf-gq-bands 25 --gvcf-gq-bands 26 --gvcf-gq-bands 27 --gvcf-gq-bands 28 --gvcf-gq-bands 29 --gvcf-gq-bands 30 --gvcf-gq-bands 31 --gvcf-gq-bands 32 --gvcf-gq-bands 33 --gvcf-gq-bands 34 --gvcf-gq-bands 35 --gvcf-gq-bands 36 --gvcf-gq-bands 37 --gvcf-gq-bands 38 --gvcf-gq-bands 39 --gvcf-gq-bands 40 --gvcf-gq-bands 41 --gvcf-gq-bands 42 --gvcf-gq-bands 43 --gvcf-gq-bands 44 --gvcf-gq-bands 45 --gvcf-gq-bands 46 --gvcf-gq-bands 47 --gvcf-gq-bands 48 --gvcf-gq-bands 49 --gvcf-gq-bands 50 --gvcf-gq-bands 51 --gvcf-gq-bands 52 --gvcf-gq-bands 53 --gvcf-gq-bands 54 --gvcf-gq-bands 55 --gvcf-gq-bands 56 --gvcf-gq-bands 57 --gvcf-gq-bands 58 --gvcf-gq-bands 59 --gvcf-gq-bands 60 --gvcf-gq-bands 70 --gvcf-gq-bands 80 --gvcf-gq-bands 90 --gvcf-gq-bands 99 --floor-blocks false --indel-size-to-eliminate-in-ref-model 10 --use-alleles-trigger false --disable-optimizations false --just-determine-active-regions false --dont-genotype false --do-not-run-physical-phasing false --use-filtered-reads-for-annotations false --correct-overlapping-quality false --adaptive-pruning false --do-not-recover-dangling-branches false --recover-dangling-heads false --consensus false --dont-trim-active-regions false --max-disc-ar-extension 25 --max-gga-ar-extension 300 --padding-around-indels 150 --padding-around-snps 20 --kmer-size 10 --kmer-size 25 --dont-increase-kmer-sizes-for-cycles false --allow-non-unique-kmers-in-ref false --num-pruning-samples 1 --min-dangling-branch-length 4 --recover-all-dangling-branches false --max-num-haplotypes-in-population 128 --min-pruning 2 --adaptive-pruning-initial-error-rate 0.001 --pruning-lod-threshold 2.302585092994046 --max-unpruned-variants 100 --debug-assembly false --debug-graph-transformations false --capture-assembly-failure-bam false --error-correct-reads false --kmer-length-for-read-error-correction 25 --min-observations-for-kmer-to-be-solid 20 --likelihood-calculation-engine PairHMM --base-quality-score-threshold 18 --pair-hmm-gap-continuation-penalty 10 --pair-hmm-implementation FASTEST_AVAILABLE --pcr-indel-model CONSERVATIVE --phred-scaled-global-read-mismapping-rate 45 --native-pair-hmm-threads 4 --native-pair-hmm-use-double-precision false --bam-writer-type CALLED_HAPLOTYPES --dont-use-soft-clipped-bases false --min-base-quality-score 10 --smith-waterman JAVA --max-mnp-distance 0 --min-assembly-region-size 50 --max-assembly-region-size 300 --assembly-region-padding 100 --max-reads-per-alignment-start 50 --active-probability-threshold 0.002 --max-prob-propagation-distance 50 --force-active false --interval-set-rule UNION --interval-padding 0 --interval-exclusion-padding 0 --interval-merging-rule ALL --read-validation-stringency SILENT --seconds-between-progress-updates 10.0 --disable-sequence-dictionary-validation false --create-output-bam-index true --create-output-bam-md5 false --create-output-variant-index true --create-output-variant-md5 false --lenient false --add-output-sam-program-record true --add-output-vcf-command-line true --cloud-prefetch-buffer 40 --cloud-index-prefetch-buffer -1 --disable-bam-index-caching false --sites-only-vcf-output false --help false --version false --showHidden false --verbosity INFO --QUIET false --use-jdk-deflater false --use-jdk-inflater false --gcs-max-retries 20 --gcs-project-for-requester-pays  --disable-tool-default-read-filters false --minimum-mapping-quality 20 --disable-tool-default-annotations false --enable-all-annotations false --allow-old-rms-mapping-quality-annotation-data false\",Version=\"4.1.3.0\",Date=\"October 3, 2019 5:19:41 PM UTC\">\n");
    v.extend_from_slice(b"##INFO=<ID=AC,Number=A,Type=Integer,Description=\"Allele count in genotypes, for each ALT allele, in the same order as listed\">\n");
    v.extend_from_slice(b"##INFO=<ID=AF,Number=A,Type=Float,Description=\"Allele Frequency, for each ALT allele, in the same order as listed\">\n");
    v.extend_from_slice(b"##INFO=<ID=AN,Number=1,Type=Integer,Description=\"Total number of alleles in called genotypes\">\n");
    v.extend_from_slice(b"##INFO=<ID=DP,Number=1,Type=Integer,Description=\"Approximate read depth; some reads may have been filtered\">\n");
    v.extend_from_slice(b"##contig=<ID=13,length=115169878>\n");
    v.extend_from_slice(b"##contig=<ID=14,length=107349540>\n");
    v.extend_from_slice(b"##source=CombineGVCFs\n");
    v.extend_from_slice(b"##source=GenotypeGVCFs\n");
    v.extend_from_slice(b"##source=HaplotypeCaller\n");
    v.extend_from_slice(b"##bcftools_viewVersion=1.9+htslib-1.9\n");
    v.extend_from_slice(b"##bcftools_viewCommand=view -O z -o /tmp/NA12878-subset.vcf.gz -r 13:32889150-32975410,17:41194315-41277931 NA12878_comparison.genotyped.vcf.gz; Date=Sat Mar  7 20:29:56 2020\n");
    v.extend_from_slice(b"#CHROM\tPOS\tID\tREF\tALT\tQUAL\tFILTER\tINFO\tFORMAT\tERP001775_HiSeq2000_SAMEA1531955-1\tERP001775_HiSeq2000_SAMEA1531955-2\n");
    v
}

struct FailingStream;

impl std::io::Read for FailingStream {
    fn read(&mut self, _buf: &mut [u8]) -> std::io::Result<usize> {
        Err(std::io::Error::new(std::io::ErrorKind::Other, "stream failure"))
    }
}

#[test]
fn test_reader1() -> Result<(), VCFError> {
    let bytes = simple_vcf_bytes();
    let mut simple_vcf = BufReader::new(&bytes[..]);
    let mut vcf_reader = VCFReader::new(&mut simple_vcf).unwrap();
    let mut vcf_record = VCFRecord::new(vcf_reader.header().clone());
    let mut record_count = 0;
    while vcf_reader.next_record(&mut vcf_record)? {
        record_count += 1;
    }
    assert_eq!(record_count, 3);
    Ok(())
}

#[test]
fn test_reader2() -> Result<(), VCFError> {
    // a larger stream: the same header followed by 306 records
    let mut bytes = simple_vcf_header_bytes();
    for i in 0..306u64 {
        let line = format!(
            "13\t{}\t.\tG\tA\t.\t.\tDP=10\tGT\t0/1\t1/1\n",
            32889968 + i
        );
        bytes.extend_from_slice(line.as_bytes());
    }
    let mut large_vcf = BufReader::new(&bytes[..]);
    let mut vcf_reader = VCFReader::new(&mut large_vcf).unwrap();
    let mut vcf_record = VCFRecord::new(vcf_reader.header().clone());
    let mut record_count = 0;
    while vcf_reader.next_record(&mut vcf_record)? {
        record_count += 1;
    }
    assert_eq!(record_count, 306);
    Ok(())
}

#[test]
fn test_reader3() -> Result<(), VCFError> {
    // a header block that ends without a #CHROM line: the first data line is
    // stashed and replayed as the first record
    let mut bytes: Vec<u8> = Vec::new();
    bytes.extend_from_slice(b"##fileformat=VCFv4.2\n");
    bytes.extend_from_slice(b"13\t32889968\t.\tG\tA\t.\t.\tDP=10\n");
    bytes.extend_from_slice(b"13\t32889969\t.\tG\tC\t.\t.\tDP=11\n");
    let mut bad_vcf = BufReader::new(&bytes[..]);
    let mut vcf_reader = VCFReader::new(&mut bad_vcf).unwrap();
    assert_eq!(vcf_reader.header().samples().len(), 0);
    let mut vcf_record = VCFRecord::new(vcf_reader.header().clone());
    let mut record_count = 0;
    while vcf_reader.next_record(&mut vcf_record)? {
        record_count += 1;
    }
    assert_eq!(record_count, 2);
    Ok(())
}

#[test]
fn test_test_writer() -> Result<(), VCFError> {
    let vcf_bytes = simple_vcf_bytes();
    let mut simple_vcf = BufReader::new(&vcf_bytes[..]);
    let mut vcf_reader = VCFReader::new(&mut simple_vcf)?;
    let mut vcf_record = VCFRecord::new(vcf_reader.header().clone());
    let mut buffer: Vec<u8> = Vec::new();
    let mut vcf_writer = VCFWriter::new(&mut buffer, vcf_reader.header())?;
    loop {
        let more = {
            let r = vcf_reader.next_record(&mut vcf_record)?;
            r
        };
        if !more {
            break;
        }
        vcf_writer.write_record(&vcf_record)?;
    }
    assert_eq!(&vcf_bytes[..], &buffer[..]);
    Ok(())
}

#[test]
fn test_reader_reports_header_error_with_line_number() {
    let bytes = &b"##fileformat=VCFv4.2\n##INFO=<ID=DP,Number=1,Type=Integer>\n"[..];
    let mut reader = BufReader::new(bytes);
    match VCFReader::new(&mut reader) {
        Err(VCFError::HeaderParseError(n)) => assert_eq!(n, 2),
        _ => panic!("expected a header parse error"),
    }
}

#[test]
fn test_reader_reports_record_error_with_line_number() {
    let mut bytes = simple_vcf_header_bytes();
    bytes.extend_from_slice(b"13\tnot_a_number\t.\tG\tA\n");
    let mut reader = BufReader::new(&bytes[..]);
    let mut vcf_reader = VCFReader::new(&mut reader).unwrap();
    let mut record = VCFRecord::new(vcf_reader.header().clone());
    match vcf_reader.next_record(&mut record) {
        Err(VCFError::RecordParseError(n)) => assert_eq!(n, 21),
        _ => panic!("expected a record parse error"),
    }
}

#[test]
fn test_reader_reports_io_error() {
    let reader = BufReader::new(FailingStream);
    match VCFReader::new(reader) {
        Err(VCFError::IoError(_)) => {}
        _ => panic!("expected a stream error"),
    }
}
