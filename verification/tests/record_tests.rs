//! Tests for the record grammar, the record model and its mutators.

use std::io::BufReader;
use vcf::record::parser::{
    parse_double_nested_separated_values, parse_info, parse_nested_separated_values, parse_record,
    parse_separated_values,
};
use vcf::{parse_header, VCFError, VCFHeader, VCFRecord};

fn create_header() -> VCFHeader {
    let bytes = simple_vcf_header_bytes();
    let mut reader = BufReader::new(&bytes[..]);
    let (_, _, header) = parse_header(&mut reader).unwrap();
    header
}

/// The bytes of a small, well-formed VCF stream used across these tests.
fn simple_vcf_header_bytes() -> Vec<u8> {
    let mut v: Vec<u8> = Vec::new();
    v.extend_from_slice(b"##fileformat=VCFv4.2\n");
    v.extend_from_slice(b"##FILTER=<ID=PASS,Description=\"All filters passed\">\n");
    v.extend_from_slice(b"##ALT=<ID=NON_REF,Description=\"Represents any possible alternative allele at this location\">\n");
    v.extend_from_slice(b"##FILTER=<ID=LowQual,Description=\"Low quality\">\n");
    v.extend_from_slice(b"##FORMAT=<ID=AD,Number=R,Type=Integer,Description=\"Allelic depths for the ref and alt alleles in the order listed\">\n");
    v.extend_from_slice(b"##FORMAT=<ID=DP,Number=1,Type=Integer,Description=\"Approximate read depth (reads with MQ=255 or with bad mates are filtered)\">\n");
    v.extend_from_slice(b"##FORMAT=<ID=GT,Number=1,Type=String,Description=\"Genotype\">\n");
    v.extend_from_slice(b"##GATKCommandLine=<ID=HaplotypeCaller,CommandLine=\"HaplotypeCaller  --contamination-fraction-to-filter 0.0 --emit-ref-confidence GVCF --output ERP001775_HiSeq2000_SAMEA1531955-1.hs37d5.g.vcf.gz --intervals /cromwell-executions/VariantCall/6f09e738-2160-49dd-8287-ff8ef9368d27/call-HaplotypeCaller/shard-20/inputs/1101158470/0020-scattered.interval_list --input /cromwell-executions/VariantCall/6f09e738-2160-49dd-8287-ff8ef9368d27/call-HaplotypeCaller/shard-20/inputs/-929370236/ERP001775_HiSeq2000_SAMEA1531955-1.hs37d5.bam --reference /cromwell-executions/VariantCall/6f09e738-2160-49dd-8287-ff8ef9368d27/call-HaplotypeCaller/shard-20/inputs/865204270/hs37d5.fa  --use-new-qual-calculator true --use-old-qual-calculator false --annotate-with-num-discovered-alleles false --heterozygosity 0.001 --indel-heterozygosity 1.25E-4 --heterozygosity-stdev 0.01 --standard-min-confidence-threshold-for-calling 30.0 --max-alternate-alleles 6 --max-genotype-count 1024 --sample-ploidy 2 --num-reference-samples-if-no-call 0 --genotyping-mode DISCOVERY --genotype-filtered-alleles false --output-mode EMIT_VARIANTS_ONLY --all-site-pls false --gvcf-gq-bands 1 --gvcf-gq-bands 2 --gvcf-gq-bands 3 --gvcf-gq-bands 4 --gvcf-gq-bands 5 --gvcf-gq-bands 6 --gvcf-gq-bands 7 --gvcf-gq-bands 8 --gvcf-gq-bands 9 --gvcf-gq-bands 10 --gvcf-gq-bands 11 --gvcf-gq-bands 12 --gvcf-gq-bands 13 --gvcf-gq-bands 14 --gvcf-gq-bands 15 --gvcf-gq-bands 16 --gvcf-gq-bands 17 --gvcf-gq-bands 18 --gvcf-gq-bands 19 --gvcf-gq-bands 20 --gvcf-gq-bands 21 --gvcf-gq-bands 22 --gvcf-gq-bands 23 --gvcf-gq-bands 24 --gvcf-gq-bands 25 --gvcf-gq-bands 26 --gvcf-gq-bands 27 --gvcf-gq-bands 28 --gvcf-gq-bands 29 --gvcf-gq-bands 30 --gvcf-gq-bands 31 --gvcf-gq-bands 32 --gvcf-gq-bands 33 --gvcf-gq-bands 34 --gvcf-gq-bands 35 --gvcf-gq-bands 36 --gvcf-gq-bands 37 --gvcf-gq-bands 38 --gvcf-gq-bands 39 --gvcf-gq-bands 40 --gvcf-gq-bands 41 --gvcf-gq-bands 42 --gvcf-gq-bands 43 --gvcf-gq-bands 44 --gvcf-gq-bands 45 --gvcf-gq-bands 46 --gvcf-gq-bands 47 --gvcf-gq-bands 48 --gvcf-gq-bands 49 --gvcf-gq-bands 50 --gvcf-gq-bands 51 --gvcf-gq-bands 52 --gvcf-gq-bands 53 --gvcf-gq-bands 54 --gvcf-gq-bands 55 --gvcf-gq-bands 56 --gvcf-gq-bands 57 --gvcf-gq-bands 58 --gvcf-gq-bands 59 --gvcf-gq-bands 60 --gvcf-gq-bands 70 --gvcf-gq-bands 80 --gvcf-gq-bands 90 --gvcf-gq-bands 99 --floor-blocks false --indel-size-to-eliminate-in-ref-model 10 --use-alleles-trigger false --disable-optimizations false --just-determine-active-regions false --dont-genotype false --do-not-run-physical-phasing false --use-filtered-reads-for-annotations false --correct-overlapping-quality false --adaptive-pruning false --do-not-recover-dangling-branches false --recover-dangling-heads false --consensus false --dont-trim-active-regions false --max-disc-ar-extension 25 --max-gga-ar-extension 300 --padding-around-indels 150 --padding-around-snps 20 --kmer-size 10 --kmer-size 25 --dont-increase-kmer-sizes-for-cycles false --allow-non-unique-kmers-in-ref false --num-pruning-samples 1 --min-dangling-branch-length 4 --recover-all-dangling-branches false --max-num-haplotypes-in-population 128 --min-pruning 2 --adaptive-pruning-initial-error-rate 0.001 --pruning-lod-threshold 2.302585092994046 --max-unpruned-variants 100 --debug-assembly false --debug-graph-transformations false --capture-assembly-failure-bam false --error-correct-reads false --kmer-length-for-read-error-correction 25 --min-observations-for-kmer-to-be-solid 20 --likelihood-calculation-engine PairHMM --base-quality-score-threshold 18 --pair-hmm-gap-continuation-penalty 10 --pair-hmm-implementation FASTEST_AVAILABLE --pcr-indel-model CONSERVATIVE --phred-scaled-global-read-mismapping-rate 45 --native-pair-hmm-threads 4 --native-pair-hmm-use-double-precision false --bam-writer-type CALLED_HAPLOTYPES --dont-use-soft-clipped-bases false --min-base-quality-score 10 --smith-waterman JAVA --max-mnp-distance 0 --min-assembly-region-size 50 --max-assembly-region-size 300 --assembly-region-padding 100 --max-reads-per-alignment-start 50 --active-probability-threshold 0.002 --max-prob-propagation-distance 50 --force-active false --interval-set-rule UNION --interval-padding 0 --interval-exclusion-padding 0 --interval-merging-rule ALL --read-validation-stringency SILENT --seconds-between-progress-updates 10.0 --disable-sequence-dictionary-validation false --create-output-bam-index true --create-output-bam-md5 false --create-output-variant-index true --create-output-variant-md5 false --lenient false --add-output-sam-program-record true --add-output-vcf-command-line true --cloud-prefetch-buffer 40 --cloud-index-prefetch-buffer -1 --disable-bam-index-caching false --sites-only-vcf-output false --help false --version false --showHidden false --verbosity INFO --QUIET false --use-jdk-deflater false --use-jdk-inflater false --gcs-max-retries 20 --gcs-project-for-requester-pays  --disable-tool-default-read-filters false --minimum-mapping-quality 20 --disable-tool-default-annotations false --enable-all-annotations false --allow-old-rms-mapping-quality-annotation-data false\",Version=\"4.1.3.0\",Date=\"October 3, 2019 5:19:41 PM UTC\">\n");
    v.extend_from_slice(b"##INFO=<ID=AC,Number=A,Type=Integer,Description=\"Allele count in genotypes, for each ALT allele, in the same order as listed\">\n");
    v.extend_from_slice(b"##INFO=<ID=AF,Number=A,Type=Float,Description=\"Allele Frequency, for each ALT allele, in the same order as listed\">\n");
    v.extend_from_slice(b"##INFO=<ID=AN,Number=1,Type=Integer,Description=\"Total number of alleles in called genotypes\">\n");
    v.extend_from_slice(b"##INFO=<ID=DP,Number=1,Type=Integer,Description=\"Approximate read depth; some reads may have been filtered\">\n");
    v.extend_from_slice(b"##contig=<ID=13,length=115169878>\n");
    v.extend_from_slice(b"##contig=<ID=14,length=107349540>\n");
    v.extend_from_slice(b"##source=CombineGVCFs\n");
    v.extend_from_slice(b"##source=GenotypeGVCFs\n");
    v.extend_from_slice(b"##source=HaplotypeCaller\n");
    v.extend_from_slice(b"##bcftools_viewVersion=1.9+htslib-1.9\n");
    v.extend_from_slice(b"##bcftools_viewCommand=view -O z -o /tmp/NA12878-subset.vcf.gz -r 13:32889150-32975410,17:41194315-41277931 NA12878_comparison.genotyped.vcf.gz; Date=Sat Mar  7 20:29:56 2020\n");
    v.extend_from_slice(b"#CHROM\tPOS\tID\tREF\tALT\tQUAL\tFILTER\tINFO\tFORMAT\tERP001775_HiSeq2000_SAMEA1531955-1\tERP001775_HiSeq2000_SAMEA1531955-2\n");
    v
}

#[test]
fn test_parse_nested_separated_values() {
    let mut result: Vec<Vec<Vec<u8>>> = Vec::new();
    let input = &b"A:X:Z,B:Y,C,D:E:F:G 1"[..];
    let end =
        parse_nested_separated_values(&mut result, input, 0, b",: ", b':', b',', false).unwrap();
    assert_eq!(end, input.len() - 2);
    assert_eq!(
        result,
        vec![
            vec![b"A".to_vec(), b"X".to_vec(), b"Z".to_vec()],
            vec![b"B".to_vec(), b"Y".to_vec()],
            vec![b"C".to_vec()],
            vec![b"D".to_vec(), b"E".to_vec(), b"F".to_vec(), b"G".to_vec()],
        ]
    );

    let end = parse_nested_separated_values(&mut result, b" 1", 0, b",: ", b':', b',', false)
        .unwrap();
    assert_eq!(end, 0);
    assert_eq!(result, Vec::<Vec<Vec<u8>>>::new());
}

#[test]
fn test_parse_separated_values() {
    let mut result: Vec<Vec<u8>> = Vec::new();
    let input = &b"A X,B Y,C=Z_x"[..];
    let end = parse_separated_values(&mut result, input, 0, b",_", b',', false, false).unwrap();
    assert_eq!(end, input.len() - 2);
    assert_eq!(result, vec![b"A X".to_vec(), b"B Y".to_vec(), b"C=Z".to_vec()]);

    let input = &b"1:2"[..];
    let end = parse_separated_values(&mut result, input, 0, b":", b':', false, false).unwrap();
    assert_eq!(end, input.len());
    assert_eq!(result, vec![b"1".to_vec(), b"2".to_vec()]);

    let input = &b"1:: 2"[..];
    let end = parse_separated_values(&mut result, input, 0, b": ", b':', false, true).unwrap();
    assert_eq!(end, input.len() - 2);
    assert_eq!(result, vec![b"1".to_vec(), b"".to_vec(), b"".to_vec()]);
}

#[test]
fn test_parse_info() {
    let test_info1 = &b"AC=54;AF=1;AN=54;DB;DP=749\t"[..];
    let mut parsed_info: Vec<(Vec<u8>, Vec<Vec<u8>>)> = Vec::new();
    let end = parse_info(test_info1, 0, &mut parsed_info);
    assert_eq!(
        parsed_info,
        vec![
            (b"AC".to_vec(), vec![b"54".to_vec()]),
            (b"AF".to_vec(), vec![b"1".to_vec()]),
            (b"AN".to_vec(), vec![b"54".to_vec()]),
            (b"DB".to_vec(), vec![]),
            (b"DP".to_vec(), vec![b"749".to_vec()]),
        ]
    );
    assert_eq!(end, test_info1.len() - 1);
}

#[test]
fn test_parse_record1() -> Result<(), VCFError> {
    let test_record1 = &b"13\t32889968\trs206119,rs60320776\tG\tA\t25743.5\t.\tAC=54;AF=1;AN=54;DP=749\tGT:AD:DP\t1/1:0,14:14\t1/1:0,19:19\n"[..];
    let mut record = VCFRecord::new(create_header());
    assert_eq!(parse_record(test_record1, &mut record), Ok(test_record1.len()));

    let mut record2 = VCFRecord::new(create_header());
    record2.parse_bytes(test_record1, 1)?;
    assert_eq!(record.chromosome, record2.chromosome);
    assert_eq!(record.info, record2.info);
    assert_eq!(record.genotype, record2.genotype);
    let record3 = VCFRecord::from_bytes(test_record1, 1, create_header())?;
    assert_eq!(record.position, record3.position);
    assert_eq!(record.genotype, record3.genotype);

    assert_eq!(record.chromosome, b"13".to_vec());
    assert_eq!(record.position, 32889968);
    assert_eq!(record.id, vec![b"rs206119".to_vec(), b"rs60320776".to_vec()]);
    assert_eq!(record.reference, b"G".to_vec());
    assert_eq!(record.alternative, vec![b"A".to_vec()]);
    assert_eq!(record.qual, Some(b"25743.5".to_vec()));
    assert_eq!(record.filter, Vec::<Vec<u8>>::new());
    assert_eq!(
        record.info,
        vec![
            (b"AC".to_vec(), vec![b"54".to_vec()]),
            (b"AF".to_vec(), vec![b"1".to_vec()]),
            (b"AN".to_vec(), vec![b"54".to_vec()]),
            (b"DP".to_vec(), vec![b"749".to_vec()]),
        ]
    );
    assert_eq!(record.info(b"AC"), Some(&vec![b"54".to_vec()]));
    assert_eq!(record.info(b"AF"), Some(&vec![b"1".to_vec()]));
    assert_eq!(record.info(b"AN"), Some(&vec![b"54".to_vec()]));
    assert_eq!(record.info(b"DP"), Some(&vec![b"749".to_vec()]));
    assert_eq!(record.info_mut(b"DP"), Some(&mut vec![b"749".to_vec()]));
    if let Some(x) = record.info_mut(b"DP") {
        x.push(b"XXXX".to_vec());
    }
    assert_eq!(
        record.info(b"DP"),
        Some(&vec![b"749".to_vec(), b"XXXX".to_vec()])
    );
    assert_eq!(
        record.insert_info(b"AC", vec![b"X".to_vec(), b"Y".to_vec()]),
        Some(vec![b"54".to_vec()])
    );
    assert_eq!(record.info(b"AC"), Some(&vec![b"X".to_vec(), b"Y".to_vec()]));
    assert_eq!(record.insert_info(b"Z", vec![b"1".to_vec()]), None);
    assert_eq!(record.info(b"Z"), Some(&vec![b"1".to_vec()]));
    assert_eq!(
        record.info,
        vec![
            (b"AC".to_vec(), vec![b"X".to_vec(), b"Y".to_vec()]),
            (b"AF".to_vec(), vec![b"1".to_vec()]),
            (b"AN".to_vec(), vec![b"54".to_vec()]),
            (b"DP".to_vec(), vec![b"749".to_vec(), b"XXXX".to_vec()]),
            (b"Z".to_vec(), vec![b"1".to_vec()]),
        ]
    );

    assert_eq!(
        record.format,
        vec![b"GT".to_vec(), b"AD".to_vec(), b"DP".to_vec()]
    );
    assert_eq!(
        record.genotype,
        vec![
            vec![
                vec![b"1/1".to_vec()],
                vec![b"0".to_vec(), b"14".to_vec()],
                vec![b"14".to_vec()],
            ],
            vec![
                vec![b"1/1".to_vec()],
                vec![b"0".to_vec(), b"19".to_vec()],
                vec![b"19".to_vec()],
            ],
        ]
    );
    assert_eq!(
        record.genotype(b"ERP001775_HiSeq2000_SAMEA1531955-1", b"GT"),
        Some(&vec![b"1/1".to_vec()])
    );
    assert_eq!(
        record.genotype(b"ERP001775_HiSeq2000_SAMEA1531955-1", b"AD"),
        Some(&vec![b"0".to_vec(), b"14".to_vec()])
    );
    assert_eq!(
        record.genotype(b"ERP001775_HiSeq2000_SAMEA1531955-1", b"DP"),
        Some(&vec![b"14".to_vec()])
    );

    assert_eq!(
        record.genotype_mut(b"ERP001775_HiSeq2000_SAMEA1531955-1", b"DP"),
        Some(&mut vec![b"14".to_vec()])
    );
    if let Some(x) = record.genotype_mut(b"ERP001775_HiSeq2000_SAMEA1531955-1", b"DP") {
        x.push(b"XXX".to_vec());
    }
    assert_eq!(
        record.genotype(b"ERP001775_HiSeq2000_SAMEA1531955-1", b"DP"),
        Some(&vec![b"14".to_vec(), b"XXX".to_vec()])
    );

    assert_eq!(
        record.insert_genotype(
            b"ERP001775_HiSeq2000_SAMEA1531955-1",
            b"AD",
            vec![b"A".to_vec(), b"B".to_vec()]
        ),
        Some(vec![b"0".to_vec(), b"14".to_vec()])
    );
    assert_eq!(
        record.genotype(b"ERP001775_HiSeq2000_SAMEA1531955-1", b"AD"),
        Some(&vec![b"A".to_vec(), b"B".to_vec()])
    );

    assert_eq!(
        record.insert_genotype(
            b"ERP001775_HiSeq2000_SAMEA1531955-1",
            b"X",
            vec![b"100".to_vec()]
        ),
        None
    );
    assert_eq!(
        record.insert_genotype(
            b"ERP001775_HiSeq2000_SAMEA1531955-2",
            b"X",
            vec![b"200".to_vec()]
        ),
        None
    );
    assert_eq!(
        record.insert_genotype(
            b"ERP001775_HiSeq2000_SAMEA1531955-2",
            b"Y",
            vec![b"300".to_vec()]
        ),
        None
    );
    assert_eq!(
        record.insert_genotype(
            b"ERP001775_HiSeq2000_SAMEA1531955-2",
            b"Z",
            vec![b"400".to_vec()]
        ),
        None
    );
    assert_eq!(
        record.insert_genotype(
            b"ERP001775_HiSeq2000_SAMEA1531955-1",
            b"Z",
            vec![b"500".to_vec()]
        ),
        None
    );
    assert_eq!(
        record.format,
        vec![
            b"GT".to_vec(),
            b"AD".to_vec(),
            b"DP".to_vec(),
            b"X".to_vec(),
            b"Y".to_vec(),
            b"Z".to_vec(),
        ]
    );
    assert_eq!(
        record.genotype,
        vec![
            vec![
                vec![b"1/1".to_vec()],
                vec![b"A".to_vec(), b"B".to_vec()],
                vec![b"14".to_vec(), b"XXX".to_vec()],
                vec![b"100".to_vec()],
                vec![b".".to_vec()],
                vec![b"500".to_vec()],
            ],
            vec![
                vec![b"1/1".to_vec()],
                vec![b"0".to_vec(), b"19".to_vec()],
                vec![b"19".to_vec()],
                vec![b"200".to_vec()],
                vec![b"300".to_vec()],
                vec![b"400".to_vec()],
            ],
        ]
    );

    Ok(())
}

#[test]
fn test_parse_record2() -> Result<(), VCFError> {
    let test_record1 = &b"13\t32889968\trs206119,rs60320776\tG\tA"[..];
    let mut record = VCFRecord::new(create_header());
    assert_eq!(parse_record(test_record1, &mut record), Ok(test_record1.len()));
    assert_eq!(record.chromosome, b"13".to_vec());
    assert_eq!(record.position, 32889968);
    assert_eq!(record.id, vec![b"rs206119".to_vec(), b"rs60320776".to_vec()]);
    assert_eq!(record.reference, b"G".to_vec());
    assert_eq!(record.alternative, vec![b"A".to_vec()]);
    Ok(())
}

#[test]
fn test_parse_record3() -> Result<(), VCFError> {
    let test_record1 = &b"13\t32889968\trs206119,rs60320776\tG\tA\t25743.5\r\n"[..];
    let mut record = VCFRecord::new(create_header());
    assert_eq!(parse_record(test_record1, &mut record), Ok(test_record1.len()));
    assert_eq!(record.chromosome, b"13".to_vec());
    assert_eq!(record.position, 32889968);
    assert_eq!(record.id, vec![b"rs206119".to_vec(), b"rs60320776".to_vec()]);
    assert_eq!(record.reference, b"G".to_vec());
    assert_eq!(record.alternative, vec![b"A".to_vec()]);
    assert_eq!(record.qual, Some(b"25743.5".to_vec()));
    Ok(())
}

#[test]
fn test_parse_record3_1() -> Result<(), VCFError> {
    let test_record1 = &b"13\t32889968\trs206119,rs60320776\tG\tA\t8.39728e+06\r\n"[..];
    let mut record = VCFRecord::new(create_header());
    assert_eq!(parse_record(test_record1, &mut record), Ok(test_record1.len()));
    assert_eq!(record.chromosome, b"13".to_vec());
    assert_eq!(record.position, 32889968);
    assert_eq!(record.id, vec![b"rs206119".to_vec(), b"rs60320776".to_vec()]);
    assert_eq!(record.reference, b"G".to_vec());
    assert_eq!(record.alternative, vec![b"A".to_vec()]);
    assert_eq!(record.qual, Some(b"8.39728e+06".to_vec()));
    Ok(())
}

#[test]
fn test_parse_record4() -> Result<(), VCFError> {
    let test_record1 = &b"13\t32889968\trs206119,rs60320776\tG\tA\t25743.5\tPASS"[..];
    let mut record = VCFRecord::new(create_header());
    assert_eq!(parse_record(test_record1, &mut record), Ok(test_record1.len()));
    assert_eq!(record.qual, Some(b"25743.5".to_vec()));
    assert_eq!(record.filter, vec![b"PASS".to_vec()]);
    Ok(())
}

#[test]
fn test_parse_record5() -> Result<(), VCFError> {
    let test_record1 =
        &b"13\t32889968\trs206119,rs60320776\tG\tA\t25743.5\t.\tAC=54;AF=1;AN=54;DP=749\n"[..];
    let mut record = VCFRecord::new(create_header());
    assert_eq!(parse_record(test_record1, &mut record), Ok(test_record1.len()));
    assert_eq!(record.qual, Some(b"25743.5".to_vec()));
    assert_eq!(record.filter, Vec::<Vec<u8>>::new());
    assert_eq!(
        record.info,
        vec![
            (b"AC".to_vec(), vec![b"54".to_vec()]),
            (b"AF".to_vec(), vec![b"1".to_vec()]),
            (b"AN".to_vec(), vec![b"54".to_vec()]),
            (b"DP".to_vec(), vec![b"749".to_vec()]),
        ]
    );
    Ok(())
}

#[test]
fn test_parse_record6() -> Result<(), VCFError> {
    let test_record1 = &b"13\t32889968\t.\tG\t.\t.\t.\tAC=54;AF=1;AN=54;DP=749\tGT:AD:DP"[..];
    let mut record = VCFRecord::new(create_header());
    assert_eq!(parse_record(test_record1, &mut record), Ok(test_record1.len()));
    assert_eq!(record.id, Vec::<Vec<u8>>::new());
    assert_eq!(record.alternative, Vec::<Vec<u8>>::new());
    assert_eq!(record.qual, None);
    assert_eq!(record.filter, Vec::<Vec<u8>>::new());
    assert_eq!(
        record.format,
        vec![b"GT".to_vec(), b"AD".to_vec(), b"DP".to_vec()]
    );
    Ok(())
}

#[test]
fn test_parse_record7() -> Result<(), VCFError> {
    let test_record1 = &b"13\t32889968\trs206119,rs60320776\tG\tA\t25743.5\t.\tAC=54;AF=1;AN=54;DP=749\tGT:AD:DP\t1/1:0,14:14\t1/1:0,19:19\n"[..];
    let mut record = VCFRecord::new(create_header());
    assert_eq!(parse_record(test_record1, &mut record), Ok(test_record1.len()));
    assert_eq!(
        record.genotype,
        vec![
            vec![
                vec![b"1/1".to_vec()],
                vec![b"0".to_vec(), b"14".to_vec()],
                vec![b"14".to_vec()],
            ],
            vec![
                vec![b"1/1".to_vec()],
                vec![b"0".to_vec(), b"19".to_vec()],
                vec![b"19".to_vec()],
            ],
        ]
    );
    assert_eq!(record.info(b"AC"), Some(&vec![b"54".to_vec()]));
    assert_eq!(record.info(b"AF"), Some(&vec![b"1".to_vec()]));
    assert_eq!(record.info(b"XX"), None);

    let test_record1 = &b"13\t32889968\trs206119,rs60320776\tG\tA"[..];
    assert_eq!(parse_record(test_record1, &mut record), Ok(test_record1.len()));
    assert_eq!(record.qual, None);
    assert_eq!(record.filter, Vec::<Vec<u8>>::new());
    assert_eq!(record.info, vec![]);
    assert_eq!(record.format, Vec::<Vec<u8>>::new());
    assert_eq!(record.genotype, Vec::<Vec<Vec<Vec<u8>>>>::new());
    assert_eq!(record.info(b"XX"), None);
    assert_eq!(record.info(b"AC"), None);
    assert_eq!(record.info(b"AF"), None);

    let test_record1 = &b"13\t32889968\trs206119,rs60320776\tG\tA\t25743.5\tPASS"[..];
    assert_eq!(parse_record(test_record1, &mut record), Ok(test_record1.len()));
    assert_eq!(record.filter, vec![b"PASS".to_vec()]);

    let test_record1 = &b"13\t32889968\t.\tG\t.\t.\t.\t.\n"[..];
    assert_eq!(parse_record(test_record1, &mut record), Ok(test_record1.len()));
    assert_eq!(record.id, Vec::<Vec<u8>>::new());
    assert_eq!(record.alternative, Vec::<Vec<u8>>::new());
    assert_eq!(record.qual, None);
    assert_eq!(record.filter, Vec::<Vec<u8>>::new());
    assert_eq!(record.info, vec![]);
    Ok(())
}

#[test]
fn test_parse_record_rejects_bad_position() {
    let mut record = VCFRecord::new(create_header());
    assert!(parse_record(b"13\tXYZ\t.\tG\tA\n", &mut record).is_err());
    assert!(parse_record(b"13\t99999999999999999999999\t.\tG\tA\n", &mut record).is_err());
    assert!(parse_record(b"13\t100\t.\tG\tA\tbadqual\t.\t.\n", &mut record).is_err());
}

#[test]
fn test_write() {
    let mut vcf_record = VCFRecord::new(create_header());
    let test_record1 = &b"13\t32889968\t.\tG\tA\t.\t.\tAC=1;AF=0.5\n"[..];
    parse_record(test_record1, &mut vcf_record).unwrap();
    let mut write_data: Vec<u8> = Vec::new();
    vcf_record.write_record(&mut write_data).unwrap();
    assert_eq!(write_data, test_record1);

    let test_record2 =
        &b"13\t32889968\t123\tG\tA\t102.0\tLOW,HIGH\tAC=1;AF=0.5\tGT:DP\t1/1:10\t0/1:20\n"[..];
    parse_record(test_record2, &mut vcf_record).unwrap();
    let mut write_data: Vec<u8> = Vec::new();
    vcf_record.write_record(&mut write_data).unwrap();
    assert_eq!(write_data, test_record2);
}

#[test]
fn test_genotype_cell_dot_collapses() {
    // FORMAT GT:AD with two samples; the first sample's whole cell is `.`
    let line = &b"1\t100\t.\tA\tC\t.\t.\t.\tGT:AD\t.\t0/1:3,4\n"[..];
    let mut record = VCFRecord::new(create_header());
    parse_record(line, &mut record).unwrap();
    assert_eq!(
        record.genotype,
        vec![
            Vec::<Vec<Vec<u8>>>::new(),
            vec![vec![b"0/1".to_vec()], vec![b"3".to_vec(), b"4".to_vec()]],
        ]
    );
    assert_eq!(
        record.genotype(b"ERP001775_HiSeq2000_SAMEA1531955-1", b"GT"),
        None
    );
    assert_eq!(
        record.genotype(b"ERP001775_HiSeq2000_SAMEA1531955-2", b"GT"),
        Some(&vec![b"0/1".to_vec()])
    );
}

#[test]
fn test_double_nested_keeps_sample_alignment() {
    let mut result: Vec<Vec<Vec<Vec<u8>>>> = Vec::new();
    let input = &b"a:b\t\tc\n"[..];
    let end = parse_double_nested_separated_values(&mut result, input, 0, b"\t\r\n:,", b',', b':', b'\t');
    assert_eq!(end, input.len() - 1);
    assert_eq!(
        result,
        vec![
            vec![vec![b"a".to_vec()], vec![b"b".to_vec()]],
            Vec::<Vec<Vec<u8>>>::new(),
            vec![vec![b"c".to_vec()]],
        ]
    );
}
