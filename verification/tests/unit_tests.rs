use colcodec::bitpacker::{compute_num_bits, BitPacker, BitUnpacker};
use colcodec::bloom::{combine_u64s, split_u128};
use colcodec::error_model::{possible_errors, ErrorModel, ErrorType};
use colcodec::line::Line;
use colcodec::optics::{RawAction, RawOptic, RawOpticBlock, RawRule};
use colcodec::ownedbytes::OwnedBytes;
use colcodec::robots::Params;
use colcodec::serial::{read_u32_le_at, read_u64_le_at, read_vint_at, write_u32_le, write_u64_le,
    write_vint};
use colcodec::stats::{gcd_u64, GcdCollector, MinMaxCollector, NumRowsCollector};
use colcodec::filestore::{ConstIterableStoreReader, IterableStoreReader, WrittenOffset};
use colcodec::lending::{Cloned, Enumerate, Filter, IntoLending};
use colcodec::value::NumericalType;
use colcodec::webspell::{Correction, CorrectionTerm};
use colcodec::filestore::write_record;
use colcodec::leechy::{Config, EngineConf, Url};
use colcodec::zimba::{Cluster, Header, Image, TitlePointerList, UrlPointerList, ZimParseError};

#[test]
fn it_works() {
    let result = colcodec::commons::add(2, 2);
    assert_eq!(result, 4);
}

#[test]
fn test_numerical_type_code() {
    let mut num_numerical_type = 0;
    for code in u8::MIN..=u8::MAX {
        if let Ok(numerical_type) = NumericalType::try_from_code(code) {
            assert_eq!(numerical_type.to_code(), code);
            num_numerical_type += 1;
        }
    }
    assert_eq!(num_numerical_type, 4);
}

#[test]
fn compute_num_bits_is_minimal() {
    assert_eq!(compute_num_bits(0), 0);
    assert_eq!(compute_num_bits(1), 1);
    assert_eq!(compute_num_bits(2), 2);
    assert_eq!(compute_num_bits(3), 2);
    assert_eq!(compute_num_bits(4), 3);
    assert_eq!(compute_num_bits(255), 8);
    assert_eq!(compute_num_bits(256), 9);
    assert_eq!(compute_num_bits(u64::MAX), 64);
    for w in 1..64u32 {
        let m = 1u64 << w;
        assert_eq!(compute_num_bits(m - 1), w as u8);
        assert_eq!(compute_num_bits(m), w as u8 + 1);
    }
}

#[test]
fn bitpacker_roundtrips_and_sizes() {
    for &width in &[0u8, 1, 2, 3, 5, 7, 8, 11, 31, 33, 63, 64] {
        let values: Vec<u64> = (0..100u64)
            .map(|i| {
                if width == 64 {
                    i.wrapping_mul(0x9e37_79b9_7f4a_7c15)
                } else {
                    i.wrapping_mul(0x9e37_79b9_7f4a_7c15) % (1u64 << width).max(1)
                }
            })
            .collect();
        let mut packer = BitPacker::new();
        let mut out: Vec<u8> = Vec::new();
        for &v in &values {
            packer.write(v, width, &mut out);
        }
        packer.close(&mut out);
        assert_eq!(out.len(), (values.len() * width as usize + 7) / 8);
        let unpacker = BitUnpacker::new(width);
        assert_eq!(unpacker.bit_width(), width);
        for (i, &v) in values.iter().enumerate() {
            assert_eq!(unpacker.get(i as u32, &out), v, "width {width} index {i}");
        }
    }
}

#[test]
fn stats_collectors_report_the_column() {
    let data = [10u64, 20, 40, 20, 10, 10, 10, 10, 10, 10];
    let mut rows = NumRowsCollector::new();
    let mut minmax = MinMaxCollector::new();
    let mut gcd = GcdCollector::new();
    for &v in &data {
        rows.collect(v);
        minmax.collect(v);
        gcd.collect(v);
    }
    assert_eq!(rows.finalize(), 10);
    assert_eq!(minmax.finalize(), (10, 40));
    let g = gcd.finalize();
    assert_eq!(g, 10);
    let min = minmax.finalize().0;
    for &v in &data {
        assert_eq!((v - min) % g, 0);
    }
    // All-equal columns normalize the divisor to one.
    let mut all_equal = GcdCollector::new();
    all_equal.collect(7);
    all_equal.collect(7);
    assert_eq!(all_equal.finalize(), 1);
}

#[test]
fn gcd_euclid() {
    assert_eq!(gcd_u64(0, 0), 0);
    assert_eq!(gcd_u64(12, 18), 6);
    assert_eq!(gcd_u64(18, 12), 6);
    assert_eq!(gcd_u64(17, 5), 1);
    assert_eq!(gcd_u64(0, 9), 9);
    assert_eq!(gcd_u64(9, 0), 9);
}

#[test]
fn line_fits_through_a_point() {
    let values: Vec<u64> = vec![0, 1, 3, 1, 0, 0, 0, 0, 0, 0];
    let line = Line::train(&values);
    let mut hit = false;
    for (i, &v) in values.iter().enumerate() {
        if line.eval(i as u32) == v {
            hit = true;
        }
    }
    assert!(hit);
    let affine: Vec<u64> = (0..100u64).map(|i| 40 + 3 * i).collect();
    let line = Line::train(&affine);
    for (i, &v) in affine.iter().enumerate() {
        // The endpoint slope is exact here, so every residual is zero.
        assert_eq!(line.eval(i as u32), v);
    }
}

#[test]
fn serial_roundtrips() {
    let mut out: Vec<u8> = Vec::new();
    write_u32_le(&mut out, 0xdead_beef);
    write_u64_le(&mut out, 0x0123_4567_89ab_cdef);
    assert_eq!(out.len(), 12);
    assert_eq!(read_u32_le_at(&out, 0), 0xdead_beef);
    assert_eq!(read_u64_le_at(&out, 4), 0x0123_4567_89ab_cdef);
    for &v in &[0u64, 1, 127, 128, 300, 16383, 16384, u64::MAX] {
        let mut enc: Vec<u8> = Vec::new();
        write_vint(&mut enc, v);
        enc.push(0xaa);
        let (decoded, end) = read_vint_at(&enc, 0).unwrap();
        assert_eq!(decoded, v);
        assert_eq!(end, enc.len() - 1);
    }
    assert!(read_vint_at(&[0x80], 0).is_none());
    assert!(read_vint_at(&[], 0).is_none());
}

#[test]
fn owned_bytes_reads_and_splits() {
    let mut bytes = OwnedBytes::new(vec![1, 0, 0, 0, 2, 0, 0, 0, 0, 0, 0, 0, 9]);
    assert_eq!(bytes.len(), 13);
    assert_eq!(bytes.read_u32_le(), 1);
    assert_eq!(bytes.read_u64_le(), 2);
    assert_eq!(bytes.read_u8(), 9);
    assert_eq!(bytes.len(), 0);

    let whole = OwnedBytes::new(vec![10, 11, 12, 13, 14]);
    assert_eq!(whole.as_slice(), &[10, 11, 12, 13, 14]);
    assert_eq!(whole.slice(1..3).as_slice(), &[11, 12]);
    let (left, right) = whole.clone().split(2);
    assert_eq!(left.as_slice(), &[10, 11]);
    assert_eq!(right.as_slice(), &[12, 13, 14]);
    let (front, back) = whole.clone().rsplit(1);
    assert_eq!(front.as_slice(), &[10, 11, 12, 13]);
    assert_eq!(back.as_slice(), &[14]);
    let mut rest = whole.clone();
    let tail = rest.split_off(3);
    assert_eq!(rest.as_slice(), &[10, 11, 12]);
    assert_eq!(tail.as_slice(), &[13, 14]);
    let mut adv = whole;
    let head = adv.advance(4);
    assert_eq!(head, vec![10, 11, 12, 13]);
    assert_eq!(adv.as_slice(), &[14]);
    assert_eq!(OwnedBytes::empty().len(), 0);
}

#[test]
fn bloom_key_halves_roundtrip() {
    let key: u128 = 0x0123_4567_89ab_cdef_fedc_ba98_7654_3210;
    let halves = split_u128(key);
    assert_eq!(halves, [0x0123_4567_89ab_cdef, 0xfedc_ba98_7654_3210]);
    assert_eq!(combine_u64s(halves), key);
    assert_eq!(split_u128(combine_u64s([5, 6])), [5, 6]);
}

#[test]
fn optic_blocks_sort_into_an_optic() {
    let blocks = vec![
        RawOpticBlock::Rule(RawRule { matches: vec![], action: Some(RawAction::Discard) }),
        RawOpticBlock::DiscardNonMatching,
        RawOpticBlock::Rule(RawRule { matches: vec![], action: Some(RawAction::Boost(2)) }),
    ];
    let optic = RawOptic::from_blocks(blocks);
    assert_eq!(optic.rules.len(), 2);
    assert_eq!(optic.host_preferences.len(), 0);
    assert!(optic.discard_non_matching);
    assert_eq!(optic.rules[1].action, Some(RawAction::Boost(2)));

    let optic = RawOptic::from_blocks(vec![]);
    assert!(!optic.discard_non_matching);
    assert_eq!(optic.rules.len(), 0);
}

#[test]
fn corrections_track_their_terms() {
    let mut correction = Correction::empty("hwllo world".to_string());
    assert!(correction.is_all_orig());
    correction.push(CorrectionTerm::Corrected {
        orig: "hwllo".to_string(),
        correction: "hello".to_string(),
    });
    assert!(!correction.is_all_orig());
    correction.push(CorrectionTerm::NotCorrected("world".to_string()));
    assert_eq!(correction.terms.len(), 2);
    let mut untouched = Correction::empty("ok".to_string());
    untouched.push(CorrectionTerm::NotCorrected("ok".to_string()));
    assert!(untouched.is_all_orig());
}

#[test]
fn cluster_blobs_slice_by_offsets() {
    let cluster = Cluster::from_parts(vec![12, 15, 15, 20], vec![b'a', b'b', b'c', b'd', b'e', b'f', b'g', b'h']);
    assert_eq!(cluster.get_blob(0), Some(vec![b'a', b'b', b'c']));
    assert_eq!(cluster.get_blob(1), Some(vec![]));
    assert_eq!(cluster.get_blob(2), Some(vec![b'd', b'e', b'f', b'g', b'h']));
    assert_eq!(cluster.get_blob(3), None);
    let empty = Cluster::from_parts(vec![], vec![]);
    assert_eq!(empty.get_blob(0), None);
}

#[test]
fn image_hands_out_its_bytes() {
    let image = Image {
        url: "a.png".to_string(),
        mime_type: "image/png".to_string(),
        content: vec![1, 2, 3],
    };
    assert_eq!(image.bytes(), &[1, 2, 3]);
}

#[test]
fn store_readers_and_offsets() {
    let offset = WrittenOffset { start: 8, num_bytes: 4 };
    let range = offset.range();
    assert_eq!(range.start, 8);
    assert_eq!(range.end, 12);
    let reader: IterableStoreReader<u64> = IterableStoreReader::from_bytes(vec![1, 2, 3, 4]);
    let sliced = reader.slice(1..3);
    let _ = sliced;
    let creader: ConstIterableStoreReader<u64> =
        ConstIterableStoreReader::from_bytes(vec![0; 24]);
    assert_eq!(creader.len(8), 3);
    assert!(!creader.is_empty(8));
    assert!(creader.slice(0..0).is_empty(8));
}

#[test]
fn lending_adapters_wrap() {
    let _ = Cloned::new(vec![1, 2, 3]);
    let _ = Enumerate::new("abc".chars());
    let _ = Filter::new(0..10u32, |x: &u32| x % 2 == 0);
    let _ = IntoLending::new(0..3u8);
}

#[test]
fn robots_params_default_limit() {
    let params = Params::default();
    assert_eq!(params.char_limit, 512_000);
}

#[test]
fn possible_errors_finds_edit_sequences() {
    assert!(possible_errors("hello", "hello").is_none());
    let errs = possible_errors("hwllo", "hello").unwrap();
    assert_eq!(errs.0, vec![ErrorType::Substitution('w', 'e')]);
    let errs = possible_errors("helo", "hello").unwrap();
    assert_eq!(errs.0.len(), 1);
    assert!(matches!(errs.0[0], ErrorType::Insertion('l')));
    let errs = possible_errors("heello", "hello").unwrap();
    assert_eq!(errs.0.len(), 1);
    assert!(matches!(errs.0[0], ErrorType::Deletion('e')));
    let errs = possible_errors("abc", "").unwrap();
    assert_eq!(errs.0.len(), 3);

    let mut model = ErrorModel::new();
    assert_eq!(model.total(), 0);
    model.add("hwllo", "hello");
    model.add("hwllo", "hello");
    model.add("same", "same");
    model.add("helo", "hello");
    assert_eq!(model.total(), 3);
}

#[test]
fn possible_errors_is_a_minimum_script() {
    // Length equals the Levenshtein distance, and no transposition appears.
    let cases = [
        ("kitten", "sitting", 3usize),
        ("flaw", "lawn", 2),
        ("abc", "", 3),
        ("", "abc", 3),
        ("abcdef", "azced", 3),
    ];
    for (a, b, dist) in cases {
        let errs = possible_errors(a, b).unwrap();
        assert_eq!(errs.0.len(), dist, "{a} -> {b}");
        assert!(errs.0.iter().all(|e| !matches!(e, ErrorType::Transposition(_, _))));
    }
}

#[test]
fn error_model_counts_each_sequence() {
    let mut model = ErrorModel::new();
    model.add("hwllo", "hello");
    model.add("hwllo", "hello");
    model.add("helo", "hello");
    assert_eq!(model.total(), 3);
}

#[test]
fn zim_header_and_pointer_tables_parse() {
    let mut bytes = vec![0u8; 80];
    bytes[0..4].copy_from_slice(&72_173_914u32.to_le_bytes());
    bytes[4..6].copy_from_slice(&6u16.to_le_bytes());
    bytes[24..28].copy_from_slice(&2u32.to_le_bytes());
    bytes[32..40].copy_from_slice(&0x1122_3344_5566_7788u64.to_le_bytes());
    let header = Header::from_bytes(&bytes).unwrap();
    assert_eq!(header.magic, 72_173_914);
    assert_eq!(header.major_version, 6);
    assert_eq!(header.entry_count, 2);
    assert_eq!(header.url_ptr_pos, 0x1122_3344_5566_7788);
    assert_eq!(Header::from_bytes(&bytes[..10]), Err(ZimParseError::UnexpectedEndOfBytes));
    let mut wrong = bytes.clone();
    wrong[0] = 0;
    assert_eq!(Header::from_bytes(&wrong), Err(ZimParseError::InvalidMagicNumber));

    let mut urls = Vec::new();
    urls.extend_from_slice(&7u64.to_le_bytes());
    urls.extend_from_slice(&9u64.to_le_bytes());
    let table = UrlPointerList::from_bytes(&urls, 2).unwrap();
    assert_eq!(table.0[0].0, 7);
    assert_eq!(table.0[1].0, 9);
    assert!(UrlPointerList::from_bytes(&urls, 3).is_err());

    let mut titles = Vec::new();
    titles.extend_from_slice(&5u32.to_le_bytes());
    let table = TitlePointerList::from_bytes(&titles, 1).unwrap();
    assert_eq!(table.0[0].0, 5);
    assert!(TitlePointerList::from_bytes(&titles, 2).is_err());
}

#[test]
fn store_records_frame_and_read_back() {
    let mut region: Vec<u8> = Vec::new();
    let first = write_record(&mut region, b"alpha");
    let second = write_record(&mut region, b"");
    let third = write_record(&mut region, b"gamma!");
    assert_eq!(first.start, 0);
    assert_eq!(first.num_bytes, 13);
    assert_eq!(second.start, 13);
    assert_eq!(third.num_bytes, 14);

    let mut reader: IterableStoreReader<u64> = IterableStoreReader::from_bytes(region);
    assert_eq!(reader.next().unwrap(), b"alpha".to_vec());
    assert_eq!(reader.next().unwrap(), Vec::<u8>::new());
    assert_eq!(reader.next().unwrap(), b"gamma!".to_vec());
    assert!(reader.next().is_none());
    reader.seek_to(second.start as usize);
    assert_eq!(reader.next().unwrap(), Vec::<u8>::new());
    // A truncated trailing record is not handed out.
    let mut truncated: IterableStoreReader<u64> =
        IterableStoreReader::from_bytes(vec![9, 0, 0, 0, 0, 0, 0, 0, 1, 2]);
    assert!(truncated.next().is_none());
}

#[test]
fn engine_config_carries_engines() {
    let conf = Config::new(vec![EngineConf {
        name: "example".to_string(),
        search: "https://example.test/?q={query}".to_string(),
        xpath: "//a".to_string(),
    }]);
    assert_eq!(conf.engines.len(), 1);
    assert_eq!(conf.engines[0].name, "example");
    let url = Url("https://example.test/a".to_string());
    assert_eq!(url.as_str(), "https://example.test/a");
}
