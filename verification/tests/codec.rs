use sfdc::Sfdc;

fn bits(layer: &sfdc::SfdcLayer) -> Vec<bool> {
    (0..layer.len()).map(|i| layer.get(i)).collect()
}

#[test]
fn it_decodes_range() {
    let texts = vec!["Compression", "The quick brown fox jumps over the lazy dog"];

    let layers = 2..=5;

    for n in layers {
        for t in &texts {
            let text = t.as_bytes();
            let sfdc = Sfdc::new(text, n);

            let decoded = sfdc.decode_range(0, text.len());
            for (i, c) in text.iter().enumerate() {
                assert_eq!(*c, decoded[i]);
            }
        }
    }
}

#[test]
fn it_decodes_one() {
    let text = "Compression".as_bytes();
    let layers = 2..=5;

    for n in layers {
        let sfdc = Sfdc::new(text, n);

        for (i, c) in text.iter().enumerate() {
            assert_eq!(*c, sfdc.decode_one(i));
        }
    }
}

#[test]
fn compression_with_three_layers() {
    let text = b"Compression";
    assert_eq!(text.len(), 11);
    let sfdc = Sfdc::new(text, 3);
    assert_eq!(sfdc.decode_range(0, 10), text.to_vec());
    assert_eq!(sfdc.decode_one(0), b'C');
    assert_eq!(sfdc.decode_one(10), b'n');
}

#[test]
fn pangram_with_three_layers() {
    let text = b"The quick brown fox jumps over the lazy dog";
    assert_eq!(text.len(), 43);
    let sfdc = Sfdc::new(text, 3);
    assert_eq!(sfdc.decode_range(0, 42), text.to_vec());
    for (i, c) in text.iter().enumerate() {
        assert_eq!(sfdc.decode_one(i), *c);
    }
    assert_eq!(sfdc.decode_one(0), b'T');
    assert_eq!(sfdc.decode_range(4, 5), b"qu".to_vec());
}

#[test]
fn single_symbol_input() {
    let sfdc = Sfdc::new(b"aaaa", 4);
    assert_eq!(sfdc.tree().tree.len(), 1);
    for i in 0..4 {
        assert_eq!(sfdc.decode_one(i), b'a');
    }
    assert_eq!(sfdc.decode_one(100), b'a');
    assert_eq!(sfdc.decode_range(0, 3), b"aaaa".to_vec());
    // one bit per occurrence, in the first layer only
    assert_eq!(bits(&sfdc.layers()[0]), vec![true; 4]);
    for j in 1..4 {
        assert_eq!(bits(&sfdc.layers()[j]), vec![false; 4]);
    }
    assert_eq!(bits(sfdc.dynamic_layer()), vec![false; 4]);
}

#[test]
fn two_symbol_balanced_input() {
    let text = b"abab";
    let sfdc = Sfdc::new(text, 2);
    assert_eq!(sfdc.decode_range(0, 3), text.to_vec());
    for (i, c) in text.iter().enumerate() {
        assert_eq!(sfdc.decode_one(i), *c);
    }
    // a is the left child of the root (bit 1), b the right (bit 0)
    assert_eq!(bits(&sfdc.layers()[0]), vec![true, false, true, false]);
    assert_eq!(bits(&sfdc.layers()[1]), vec![false; 4]);
    assert_eq!(bits(sfdc.dynamic_layer()), vec![false; 4]);
}

fn long_tailed() -> Vec<u8> {
    // sixteen symbols of falling frequency, the rarest at the end
    let mut text = Vec::new();
    for s in 0..16u8 {
        let times = 1usize << ((15 - s).min(9) as usize);
        for _ in 0..times {
            text.push(b'a' + s);
        }
    }
    text
}

#[test]
fn long_tailed_distribution() {
    let text = long_tailed();
    assert_eq!(text.len(), 4095);
    let sfdc = Sfdc::new(&text, 3);
    let longest = text.iter().map(|c| sfdc.tree().get_code(*c).len()).max().unwrap();
    assert!(longest > 3);
    assert_eq!(sfdc.decode_range(0, text.len() - 1), text);
    for (i, c) in text.iter().enumerate() {
        assert_eq!(sfdc.decode_one(i), *c);
    }
    assert!(sfdc.dynamic_layer().len() > text.len());
    assert_eq!(sfdc.decode_range(4000, 4094), text[4000..].to_vec());
}

#[test]
fn overflow_is_placed_under_the_text_while_there_is_room() {
    // a = 0, b = 10, c = 111, d = 110
    let text = b"aaaaaaaabbbbcd";
    let sfdc = Sfdc::new(text, 2);
    assert_eq!(sfdc.tree().get_code(b'a'), vec![0]);
    assert_eq!(sfdc.tree().get_code(b'b'), vec![1, 0]);
    assert_eq!(sfdc.tree().get_code(b'c'), vec![1, 1, 1]);
    assert_eq!(sfdc.tree().get_code(b'd'), vec![1, 1, 0]);
    let mut expected = vec![false; 14];
    expected[12] = true;
    assert_eq!(bits(sfdc.dynamic_layer()), expected);
    assert_eq!(sfdc.decode_range(0, 13), text.to_vec());

    // eight symbols of count one: every codeword has three bits, one of
    // them overflows at every column, and none is left at the end
    let text = b"abcdefgh";
    let sfdc = Sfdc::new(text, 2);
    for c in text {
        assert_eq!(sfdc.tree().get_code(*c).len(), 3);
    }
    assert_eq!(sfdc.dynamic_layer().len(), 8);
    assert_eq!(sfdc.decode_range(0, 7), text.to_vec());
    // with three layers every codeword ends in the fixed layers
    let sfdc = Sfdc::new(text, 3);
    assert_eq!(bits(sfdc.dynamic_layer()), vec![false; 8]);
    assert_eq!(sfdc.decode_range(0, 7), text.to_vec());
}

#[test]
fn overflow_left_at_the_end_is_appended_top_first() {
    // a = 1, b = 01, c = 001, d = 0001, e = 0000
    let text = b"aaaaaaaabbbbccde";
    let sfdc = Sfdc::new(text, 2);
    assert_eq!(sfdc.tree().get_code(b'a'), vec![1]);
    assert_eq!(sfdc.tree().get_code(b'b'), vec![0, 1]);
    assert_eq!(sfdc.tree().get_code(b'c'), vec![0, 0, 1]);
    assert_eq!(sfdc.tree().get_code(b'd'), vec![0, 0, 0, 1]);
    assert_eq!(sfdc.tree().get_code(b'e'), vec![0, 0, 0, 0]);
    let mut expected = vec![false; 18];
    expected[12] = true; // third bit of the first c
    expected[13] = true; // third bit of the second c
    expected[17] = true; // fourth bit of d, released after that of e
    assert_eq!(bits(sfdc.dynamic_layer()), expected);
    assert_eq!(sfdc.decode_range(0, 15), text.to_vec());
    assert_eq!(sfdc.decode_range(14, 14), vec![b'd']);
    assert_eq!(sfdc.decode_range(15, 15), vec![b'e']);
    assert_eq!(sfdc.decode_one(14), b'd');
    // a descent that starts in the middle passes over bits of earlier columns
    let text = b"deaaaaaaaabbbbcc";
    let sfdc = Sfdc::new(text, 2);
    for start in 0..text.len() {
        for end in start..text.len() {
            assert_eq!(sfdc.decode_range(start, end), text[start..=end].to_vec());
        }
    }
}

#[test]
fn layer_sweep() {
    let texts = ["Compression", "The quick brown fox jumps over the lazy dog"];
    for t in texts {
        let text = t.as_bytes();
        let first = Sfdc::new(text, 2).decode_range(0, text.len() - 1);
        assert_eq!(first, text.to_vec());
        for n in 3..=5 {
            assert_eq!(Sfdc::new(text, n).decode_range(0, text.len() - 1), first);
        }
    }
}

#[test]
fn range_equals_pointwise() {
    let text = b"The quick brown fox jumps over the lazy dog";
    for n in [2usize, 3, 7] {
        let sfdc = Sfdc::new(text, n);
        for start in 0..text.len() {
            for end in start..text.len() {
                assert_eq!(sfdc.decode_range(start, end), text[start..=end].to_vec());
            }
        }
    }
}

#[test]
fn indices_past_the_end_are_clamped() {
    let text = b"Compression";
    let sfdc = Sfdc::new(text, 3);
    for k in 0..5 {
        assert_eq!(sfdc.decode_one(text.len() + k), b'n');
    }
    assert_eq!(sfdc.decode_one(usize::MAX), b'n');
    assert_eq!(sfdc.decode_range(11, 11), vec![b'n']);
    assert_eq!(sfdc.decode_range(11, 40), vec![b'n']);
    assert_eq!(sfdc.decode_range(40, 11), vec![b'n']);
    assert_eq!(sfdc.decode_range(usize::MAX, usize::MAX), vec![b'n']);
    assert_eq!(sfdc.decode_range(8, 1000), b"ion".to_vec());
}

#[test]
fn fewer_than_two_layers_give_two() {
    let text = b"Compression";
    for n in [0usize, 1, 2] {
        let sfdc = Sfdc::new(text, n);
        assert_eq!(sfdc.layers().len(), 2);
        assert_eq!(sfdc.decode_range(0, 10), text.to_vec());
    }
    assert_eq!(Sfdc::new(text, 6).layers().len(), 6);
}

#[test]
fn two_constructions_are_bitwise_identical() {
    let text = b"The quick brown fox jumps over the lazy dog";
    for n in [2usize, 3, 4] {
        let a = Sfdc::new(text, n);
        let b = Sfdc::new(text, n);
        assert_eq!(a.len(), b.len());
        assert_eq!(a.layers().len(), b.layers().len());
        for j in 0..a.layers().len() {
            assert_eq!(bits(&a.layers()[j]), bits(&b.layers()[j]));
        }
        assert_eq!(bits(a.dynamic_layer()), bits(b.dynamic_layer()));
        assert_eq!(a.tree().tree, b.tree().tree);
        assert_eq!(a.tree().root, b.tree().root);
        assert_eq!(a.tree().symbols, b.tree().symbols);
    }
}

#[test]
fn fixed_layers_hold_the_first_bits_of_each_codeword() {
    let text = b"adabcda";
    let sfdc = Sfdc::new(text, 2);
    // a = 1, d = 01, b = 001, c = 000
    assert_eq!(
        bits(&sfdc.layers()[0]),
        vec![true, false, true, false, false, false, true]
    );
    assert_eq!(
        bits(&sfdc.layers()[1]),
        vec![false, true, false, false, false, true, false]
    );
    // b at column 3 overflows with 1, c at column 4 with 0
    assert_eq!(
        bits(sfdc.dynamic_layer()),
        vec![false, false, false, true, false, false, false]
    );
    assert_eq!(sfdc.len(), 7);
}

#[test]
fn empty_text_is_rejected() {
    assert!(matches!(Sfdc::try_new(b"", 3), Err(sfdc::SfdcError::EmptyInput)));
    assert!(matches!(Sfdc::try_new(b"", 0), Err(sfdc::SfdcError::EmptyInput)));
    let built = Sfdc::try_new(b"Compression", 3);
    assert!(built.is_ok());
    let sfdc = built.unwrap_or_else(|e| panic!("{e:?}"));
    assert_eq!(sfdc.decode_range(0, 10), b"Compression".to_vec());
    assert_eq!(sfdc.layers().len(), 3);
}

#[test]
fn range_has_one_symbol_per_position() {
    let text = b"Compression";
    let sfdc = Sfdc::new(text, 3);
    assert_eq!(sfdc.decode_range(0, 0).len(), 1);
    assert_eq!(sfdc.decode_range(3, 7).len(), 5);
    assert_eq!(sfdc.decode_range(0, 10).len(), 11);
    assert_eq!(sfdc.decode_range(0, 11).len(), 11);
    assert_eq!(sfdc.decode_range(20, 30).len(), 1);
    assert_eq!(sfdc.len(), 11);
    assert!(Sfdc::text_limit() >= 1 << 21);
    assert_eq!(Sfdc::text_limit(), usize::MAX / 2048);
}

#[test]
fn clone_decodes_like_its_source() {
    let text = b"The quick brown fox jumps over the lazy dog";
    let sfdc = Sfdc::new(text, 2);
    let copy = sfdc.clone();
    drop(sfdc);
    assert_eq!(copy.decode_range(0, 42), text.to_vec());
    assert_eq!(copy.layers().len(), 2);
    let tree = copy.tree().clone();
    assert_eq!(&tree, copy.tree());
}

#[test]
fn every_byte_value_round_trips() {
    let mut text = Vec::new();
    for round in 0..3usize {
        for b in 0..=255u8 {
            for _ in 0..(1 + (b as usize + round) % 4) {
                text.push(b);
            }
        }
    }
    for n in [2usize, 8, 9] {
        let sfdc = Sfdc::new(&text, n);
        assert_eq!(sfdc.tree().tree.len(), 511);
        assert_eq!(sfdc.decode_range(0, text.len() - 1), text);
        assert_eq!(sfdc.decode_range(700, 720), text[700..=720].to_vec());
    }
}
