use noun::atom::{Atom, Builder};

#[test]
fn bit_len() {
    {
        let num = 0b111u8.to_le_bytes();
        assert_eq!(noun::atom::bit_len(&num[..]), 3);
    }

    {
        let num = 0b10001011u8.to_le_bytes();
        assert_eq!(noun::atom::bit_len(&num[..]), 8);
    }

    {
        let num = 0b100000000u16.to_le_bytes();
        assert_eq!(noun::atom::bit_len(&num[..]), 9);
    }

    {
        let num = [
            0x0, 0x1, 0x2, 0x3, 0x4, 0x5, 0x6, 0x7, 0x8, 0x9, 0xa, 0xb, 0xc, 0xd, 0xe, 0xf, 0x37,
        ];
        assert_eq!(noun::atom::bit_len(&num[..]), 134);
    }
}

#[test]
fn is_null() {
    assert!(Atom::from_u8(0).is_null());
    assert!(!Atom::from_u8(1).is_null());
}

#[test]
fn iter() {
    {
        let atom = Atom::from_u8(0b0);
        let mut atom_iter = atom.iter();
        assert_eq!(None, atom_iter.next());
    }

    {
        let atom = Atom::from_u8(0b10);
        let mut atom_iter = atom.iter();
        assert_eq!(Some(false), atom_iter.next());
        assert_eq!(Some(true), atom_iter.next());
        assert_eq!(None, atom_iter.next());
    }

    {
        let atom = Atom::from_u32(0x2f004);
        let mut atom_iter = atom.iter();
        assert_eq!(Some(false), atom_iter.next());
        assert_eq!(Some(false), atom_iter.next());
        assert_eq!(Some(true), atom_iter.next());
        assert_eq!(Some(false), atom_iter.next());

        assert_eq!(Some(false), atom_iter.next());
        assert_eq!(Some(false), atom_iter.next());
        assert_eq!(Some(false), atom_iter.next());
        assert_eq!(Some(false), atom_iter.next());

        assert_eq!(Some(false), atom_iter.next());
        assert_eq!(Some(false), atom_iter.next());
        assert_eq!(Some(false), atom_iter.next());
        assert_eq!(Some(false), atom_iter.next());

        assert_eq!(Some(true), atom_iter.next());
        assert_eq!(Some(true), atom_iter.next());
        assert_eq!(Some(true), atom_iter.next());
        assert_eq!(Some(true), atom_iter.next());

        assert_eq!(Some(false), atom_iter.next());
        assert_eq!(Some(true), atom_iter.next());

        assert_eq!(None, atom_iter.next());
    }
}

#[test]
fn partial_eq() {
    {
        let lh = Atom::from_text("The Importance of Being Ernest");
        let rh = Atom::from_text("The Importance of Being Ernest");
        assert_eq!(lh, rh);
    }

    {
        let lh = Atom::from_text("Oh, to be a glove");
        let rh = Atom::from_text("upon that hand.");
        assert_ne!(lh, rh);
    }

    {
        let string = "hello";
        let atom = Atom::from_text(string);
        assert_eq!(atom.as_str().unwrap(), string);
    }

    {
        let atom = Atom::from_text("hello");
        assert_ne!(atom.as_str().unwrap(), "goodbye");
    }

    {
        assert_eq!(Atom::from_u8(0).as_u8().unwrap(), 0u8);
        assert_eq!(Atom::from_u8(107).as_u8().unwrap(), 107u8);
        assert_eq!(Atom::from_u16(16_000).as_u16().unwrap(), 16_000u16);
        assert_eq!(Atom::from_u32(949_543_111).as_u32().unwrap(), 949_543_111u32);
        assert_eq!(Atom::from_u64(184_884_819).as_u64().unwrap(), 184_884_819u64);
        assert_eq!(
            Atom::from_u128(19_595_184_881_994_188_181).as_u128().unwrap(),
            19_595_184_881_994_188_181u128
        );
        assert_eq!(
            Atom::from_usize(10_101_044_481_818).as_usize().unwrap(),
            10_101_044_481_818usize
        );
    }

    {
        assert_ne!(Atom::from_u8(97).as_u8().unwrap(), 103u8);
        assert_ne!(Atom::from_u8(98).as_u16().unwrap(), 64_222u16);
        assert_ne!(Atom::from_u8(99).as_u32().unwrap(), 777_919_400u32);
        assert_ne!(Atom::from_u8(100).as_u64().unwrap(), 881_944_000_887u64);
        assert_ne!(
            Atom::from_u64(881_944_000_887).as_u128().unwrap(),
            21_601_185_860_100_176_183u128
        );
        assert_ne!(Atom::from_u16(64_222).as_usize().unwrap(), 127usize);
    }
}

#[test]
fn types_from_uint() {
    {
        let val = u8::MAX;
        let atom = Atom::from_u8(val);
        assert_eq!(atom.as_u8().unwrap(), val);
    }

    {
        let val = u16::MAX;
        let atom = Atom::from_u16(val);
        assert_eq!(atom.as_u16().unwrap(), val);
    }

    {
        let val = u32::MAX;
        let atom = Atom::from_u32(val);
        assert_eq!(atom.as_u32().unwrap(), val);
    }

    {
        let val = u64::MAX;
        let atom = Atom::from_u64(val);
        assert_eq!(atom.as_u64().unwrap(), val);
    }

    {
        let val = u128::MAX;
        let atom = Atom::from_u128(val);
        assert_eq!(atom.as_u128().unwrap(), val);
    }

    {
        let val = usize::MAX;
        let atom = Atom::from_usize(val);
        assert_eq!(atom.as_usize().unwrap(), val);
    }
}

#[test]
fn atom_from_uint() {
    {
        let val = u8::MAX;
        let atom = Atom::from_u8(val);
        assert_eq!(atom.as_u8().unwrap(), val);
    }

    {
        let val = u16::MAX;
        let atom = Atom::from_u16(val);
        assert_eq!(atom.as_u16().unwrap(), val);
    }

    {
        let val = u32::MAX;
        let atom = Atom::from_u32(val);
        assert_eq!(atom.as_u32().unwrap(), val);
    }

    {
        let val = u64::MAX;
        let atom = Atom::from_u64(val);
        assert_eq!(atom.as_u64().unwrap(), val);
    }

    {
        let val = u128::MAX;
        let atom = Atom::from_u128(val);
        assert_eq!(atom.as_u128().unwrap(), val);
    }

    {
        let val = usize::MAX;
        let atom = Atom::from_usize(val);
        assert_eq!(atom.as_usize().unwrap(), val);
    }
}

#[test]
fn types_partialeq() {
    {
        let vec = vec![b'h', b'e', b'l', b'l', b'o'];
        let atom = Atom::from_bytes(vec);
        assert_eq!(atom.as_str().unwrap(), "hello");
    }
}

#[test]
fn atom_partialeq() {
    {
        let vec = vec![b'h', b'e', b'l', b'l', b'o'];
        let atom = Atom::from_bytes(vec);
        assert_eq!(atom.as_str().unwrap(), "hello");
    }
}

#[test]
fn canonical_idempotent() {
    // Rebuilding a canonical atom from its own bytes yields the atom
    // back, and its bit length is minimal for its value.
    let atom = Atom::from_u64(581_949_002);
    let again = Atom::from_bytes(atom.to_vec());
    assert_eq!(atom, again);
    assert_eq!(atom.bit_len(), 30);

    let zero = Atom::from_bytes(vec![0, 0, 0]);
    assert_eq!(zero, Atom::null());
    assert_eq!(zero.bit_len(), 0);
}

#[test]
fn builder_tracks_bits() {
    // Push the bits of 0b1011 and finish: four bits, value 11.
    let mut builder = Builder::new();
    assert_eq!(builder.pos(), 0);
    builder.push_bit(true);
    builder.push_bit(true);
    builder.push_bit(false);
    builder.push_bit(true);
    assert_eq!(builder.pos(), 4);
    let atom = builder.into_atom();
    assert_eq!(atom.bit_len(), 4);
    assert_eq!(atom.as_u8().unwrap(), 11);

    // A builder keeps trailing clear bits in its count.
    let mut builder = Builder::new();
    builder.push_bit(true);
    builder.push_bit(false);
    builder.push_bit(false);
    let atom = builder.into_atom();
    assert_eq!(atom.bit_len(), 3);
    assert_eq!(atom.as_u8().unwrap(), 1);
}

#[test]
fn text_errors() {
    let atom = Atom::from_bytes(vec![0xff, 0xfe, 0x1]);
    assert!(atom.as_str().is_err());
}

#[test]
fn hashes_are_structural() {
    let a = Atom::from_u64(1_000_000);
    let b = Atom::from_u64(1_000_000);
    let c = Atom::from_u64(1_000_001);
    assert_eq!(a.hash(), b.hash());
    assert_ne!(a.hash(), c.hash());
}
