use noun::atom::Atom;
use noun::cell::Cell;
use noun::noun::Noun;
use std::rc::Rc;

fn na(v: u128) -> Rc<Noun> {
    Rc::new(Atom::from_u128(v).into_noun())
}

fn nt(s: &str) -> Rc<Noun> {
    Rc::new(Atom::from_text(s).into_noun())
}

fn nb(v: Vec<u8>) -> Rc<Noun> {
    Rc::new(Atom::from_bytes(v).into_noun())
}

fn c2(h: Rc<Noun>, t: Rc<Noun>) -> Rc<Noun> {
    Rc::new(Cell::new(h, t).into_noun())
}

fn cl(elems: Vec<Rc<Noun>>) -> Rc<Noun> {
    Rc::new(Cell::from_vec(elems).into_noun())
}

fn jam_of(n: &Rc<Noun>) -> Atom {
    (**n).clone().jam()
}

fn cue_of(a: Atom) -> Rc<Noun> {
    Rc::new(Noun::cue(a).expect("cue"))
}

#[test]
fn jam_cue_atom() {
    // 0 serializes to 2.
    {
        let atom = na(0);
        let jammed_atom = Atom::from_u8(2);
        assert_eq!(jam_of(&atom), jammed_atom);
        assert_eq!(cue_of(jammed_atom), atom);
    }

    // 1 serializes to 12.
    {
        let atom = na(1);
        let jammed_atom = Atom::from_u8(12);
        assert_eq!(jam_of(&atom), jammed_atom);
        assert_eq!(cue_of(jammed_atom), atom);
    }

    // 2 serializes to 72.
    {
        let atom = na(2);
        let jammed_atom = Atom::from_u8(72);
        assert_eq!(jam_of(&atom), jammed_atom);
        assert_eq!(cue_of(jammed_atom), atom);
    }

    // 19 serializes to 2480.
    {
        let atom = na(19);
        let jammed_atom = Atom::from_u16(2480);
        assert_eq!(jam_of(&atom), jammed_atom);
        assert_eq!(cue_of(jammed_atom), atom);
    }

    // 581.949.002 serializes to 1.191.831.557.952.
    {
        let atom = na(581_949_002);
        let jammed_atom = Atom::from_u64(1_191_831_557_952);
        assert_eq!(jam_of(&atom), jammed_atom);
        assert_eq!(cue_of(jammed_atom), atom);
    }
}

#[test]
fn jam_cue_cell() {
    // [0 19] serializes into 39.689.
    {
        let cell = c2(na(0), na(19));
        let jammed_cell = Atom::from_u16(39_689);
        assert_eq!(jam_of(&cell), jammed_cell);
        assert_eq!(cue_of(jammed_cell), cell);
    }

    // [1 1] serializes to 817.
    {
        let cell = c2(na(1), na(1));
        let jammed_cell = Atom::from_u16(817);
        assert_eq!(jam_of(&cell), jammed_cell);
        assert_eq!(cue_of(jammed_cell), cell);
    }

    // [10.000 10.000] serializes into 4.952.983.169.
    {
        let cell = c2(na(10_000), na(10_000));
        let jammed_cell = Atom::from_u64(0b100100111001110001000011010000001);
        assert_eq!(jam_of(&cell), jammed_cell);
        assert_eq!(cue_of(jammed_cell), cell);
    }

    // [999.999.999 999.999.999] serializes to 1.301.217.674.263.809.
    {
        let cell = c2(na(999_999_999), na(999_999_999));
        let jammed_cell = Atom::from_u64(0b100100111110111001101011001001111111111110100000001);
        assert_eq!(jam_of(&cell), jammed_cell);
        assert_eq!(cue_of(jammed_cell), cell);
    }

    // [222 444 888] serializes to 250.038.217.192.960.129.
    {
        let cell = cl(vec![na(222), na(444), na(888)]);
        let jammed_cell = Atom::from_u64(250_038_217_192_960_129);
        assert_eq!(jam_of(&cell), jammed_cell);
        assert_eq!(cue_of(jammed_cell), cell);
    }

    // [[107 110] [107 110]] serializes to 635.080.761.093.
    {
        let head = c2(na(107), na(110));
        let cell = c2(head.clone(), head);
        let jammed_cell = Atom::from_u64(0b1001001111011101110000110101111100000101);
        assert_eq!(jam_of(&cell), jammed_cell);
        assert_eq!(cue_of(jammed_cell), cell);
    }

    // [0 1 2 3 4 5 6 7 8 9 10] serializes to
    // 25.681.224.503.728.653.597.984.370.231.065.
    {
        let cell = cl(vec![
            na(0),
            na(1),
            na(2),
            na(3),
            na(4),
            na(5),
            na(6),
            na(7),
            na(8),
            na(9),
            na(10),
        ]);
        let jammed_cell = Atom::from_u128(25_681_224_503_728_653_597_984_370_231_065);
        assert_eq!(jam_of(&cell), jammed_cell);
        assert_eq!(cue_of(jammed_cell), cell);
    }

    // [99 100 101 102 103 104 0] serializes to
    // 223.372.995.869.285.333.705.242.560.449.
    {
        let cell = cl(vec![na(99), na(100), na(101), na(102), na(103), na(104), na(0)]);
        let jammed_cell = Atom::from_u128(223_372_995_869_285_333_705_242_560_449);
        assert_eq!(jam_of(&cell), jammed_cell);
        assert_eq!(cue_of(jammed_cell), cell);
    }

    // [[222 444 888] [222 444 888]] serializes to
    // 170.479.614.045.978.345.989.
    {
        let head = cl(vec![na(222), na(444), na(888)]);
        let cell = c2(head.clone(), head);
        let jammed_cell = Atom::from_u128(170_479_614_045_978_345_989);
        assert_eq!(jam_of(&cell), jammed_cell);
        assert_eq!(cue_of(jammed_cell), cell);
    }

    // [[0 1] [1 2] [2 3] [3 4] 0] serializes to
    // 11.976.248.475.217.237.797.
    {
        let cell = cl(vec![
            c2(na(0), na(1)),
            c2(na(1), na(2)),
            c2(na(2), na(3)),
            c2(na(3), na(4)),
            na(0),
        ]);
        let jammed_cell = Atom::from_u64(11_976_248_475_217_237_797);
        assert_eq!(jam_of(&cell), jammed_cell);
        assert_eq!(cue_of(jammed_cell), cell);
    }

    // [[0 1] [1 2] [2 3] [3 4] [4 5] [5 6] [6 7] [7 8] [8 9] 0]
    // serializes to
    // 7.694.087.033.387.855.647.747.387.855.514.468.399.947.749.137.782.565.
    {
        let cell = cl(vec![
            c2(na(0), na(1)),
            c2(na(1), na(2)),
            c2(na(2), na(3)),
            c2(na(3), na(4)),
            c2(na(4), na(5)),
            c2(na(5), na(6)),
            c2(na(6), na(7)),
            c2(na(7), na(8)),
            c2(na(8), na(9)),
            na(0),
        ]);
        let jammed_cell = Atom::from_bytes(vec![
            37, 23, 35, 11, 137, 46, 52, 102, 97, 226, 22, 46, 118, 97, 227, 23, 62, 4, 11, 130,
            144, 20,
        ]);
        assert_eq!(jam_of(&cell), jammed_cell);
        assert_eq!(cue_of(jammed_cell), cell);
    }

    // [[0 1] [2 3] [4 5] [6 7] [8 9] [10 11] [12 13] [14 15] [16 17]
    //  [18 19] [20 21] 0] serializes to
    // 308.947.677.754.874.070.959.300.747.182.056.036.528.545.493.781.368.831.595.479.491.505.523.344.414.501.
    {
        let cell = cl(vec![
            c2(na(0), na(1)),
            c2(na(2), na(3)),
            c2(na(4), na(5)),
            c2(na(6), na(7)),
            c2(na(8), na(9)),
            c2(na(10), na(11)),
            c2(na(12), na(13)),
            c2(na(14), na(15)),
            c2(na(16), na(17)),
            c2(na(18), na(19)),
            c2(na(20), na(21)),
            na(0),
        ]);
        let jammed_cell = Atom::from_bytes(vec![
            37, 23, 18, 93, 152, 184, 133, 141, 95, 16, 132, 100, 65, 20, 178, 5, 97, 72, 23, 196,
            33, 95, 48, 8, 139, 5, 147, 176, 89, 48, 10, 171, 2,
        ]);
        assert_eq!(jam_of(&cell), jammed_cell);
        assert_eq!(cue_of(jammed_cell), cell);
    }

    // [[%vary 'Origin'] [%vary 'Accept-Encoding']] serializes to
    // 2.923.956.498.268.356.738.336.949.786.175.643.457.788.180.560.108.194.340.456.079.961.920.720.567.301.
    {
        let cell = c2(
            c2(nt("vary"), nt("Origin")),
            c2(nt("vary"), nt("Accept-Encoding")),
        );
        let jammed_cell = Atom::from_bytes(vec![
            5, 124, 187, 48, 185, 60, 224, 123, 146, 75, 59, 75, 115, 55, 19, 224, 29, 52, 54, 86,
            6, 71, 215, 82, 228, 54, 246, 70, 150, 230, 118, 6,
        ]);
        assert_eq!(jam_of(&cell), jammed_cell);
        assert_eq!(cue_of(jammed_cell), cell);
    }

    // [%x-cached 'HIT'] serializes to
    // 3.419.056.981.361.227.851.413.339.139.505.665.
    {
        let cell = c2(nt("x-cached"), nt("HIT"));
        let jammed_cell = Atom::from_u128(3_419_056_981_361_227_851_413_339_139_505_665);
        assert_eq!(jam_of(&cell), jammed_cell);
        assert_eq!(cue_of(jammed_cell), cell);
    }

    // [[%x-cached 'HIT'] [%vary 'Origin'] [%vary 'Accept-Encoding'] 0]
    {
        let cell = cl(vec![
            c2(nt("x-cached"), nt("HIT")),
            c2(nt("vary"), nt("Origin")),
            c2(nt("vary"), nt("Accept-Encoding")),
            na(0),
        ]);
        let jammed_cell = Atom::from_bytes(vec![
            5, 248, 241, 90, 198, 194, 198, 208, 202, 200, 192, 67, 74, 162, 22, 240, 237, 194,
            228, 242, 128, 239, 73, 46, 237, 44, 205, 93, 227, 118, 128, 119, 208, 216, 88, 25, 28,
            93, 75, 145, 219, 216, 27, 89, 154, 219, 89,
        ]);
        assert_eq!(jam_of(&cell), jammed_cell);
        assert_eq!(cue_of(jammed_cell), cell);
    }

    // [[%x-cached 'HIT'] [%vary 'Origin'] [%vary 'Accept-Encoding']
    //  [%connection %keep-alive] 0]
    {
        let cell = cl(vec![
            c2(nt("x-cached"), nt("HIT")),
            c2(nt("vary"), nt("Origin")),
            c2(nt("vary"), nt("Accept-Encoding")),
            c2(nt("connection"), nt("keep-alive")),
            na(0),
        ]);
        let jammed_cell = Atom::from_bytes(vec![
            5, 248, 241, 90, 198, 194, 198, 208, 202, 200, 192, 67, 74, 162, 22, 240, 237, 194,
            228, 242, 128, 239, 73, 46, 237, 44, 205, 93, 227, 118, 128, 119, 208, 216, 88, 25, 28,
            93, 75, 145, 219, 216, 27, 89, 154, 219, 185, 0, 62, 99, 111, 110, 110, 101, 99, 116,
            105, 111, 110, 128, 207, 90, 89, 25, 92, 75, 24, 91, 154, 93, 89,
        ]);
        assert_eq!(jam_of(&cell), jammed_cell);
        assert_eq!(cue_of(jammed_cell), cell);
    }

    // [[%x-cached 'HIT'] [%vary 'Origin'] [%vary 'Accept-Encoding']
    //  [%connection %keep-alive] [%content-length '59'] 0]
    {
        let cell = cl(vec![
            c2(nt("x-cached"), nt("HIT")),
            c2(nt("vary"), nt("Origin")),
            c2(nt("vary"), nt("Accept-Encoding")),
            c2(nt("connection"), nt("keep-alive")),
            c2(nt("content-length"), nt("59")),
            na(0),
        ]);
        let jammed_cell = Atom::from_bytes(vec![
            5, 248, 241, 90, 198, 194, 198, 208, 202, 200, 192, 67, 74, 162, 22, 240, 237, 194,
            228, 242, 128, 239, 73, 46, 237, 44, 205, 93, 227, 118, 128, 119, 208, 216, 88, 25, 28,
            93, 75, 145, 219, 216, 27, 89, 154, 219, 185, 0, 62, 99, 111, 110, 110, 101, 99, 116,
            105, 111, 110, 128, 207, 90, 89, 25, 92, 75, 24, 91, 154, 93, 185, 0, 190, 99, 111,
            110, 116, 101, 110, 116, 45, 108, 101, 110, 103, 116, 104, 208, 53, 185,
        ]);
        assert_eq!(jam_of(&cell), jammed_cell);
        assert_eq!(cue_of(jammed_cell), cell);
    }

    // [[%x-cached 'HIT'] [%vary 'Origin'] [%vary 'Accept-Encoding']
    //  [%connection %keep-alive] [%content-length '59']
    //  [%content-type 'application/json'] 0]
    {
        let cell = cl(vec![
            c2(nt("x-cached"), nt("HIT")),
            c2(nt("vary"), nt("Origin")),
            c2(nt("vary"), nt("Accept-Encoding")),
            c2(nt("connection"), nt("keep-alive")),
            c2(nt("content-length"), nt("59")),
            c2(nt("content-type"), nt("application/json")),
            na(0),
        ]);
        let jammed_cell = Atom::from_bytes(vec![
            5, 248, 241, 90, 198, 194, 198, 208, 202, 200, 192, 67, 74, 162, 22, 240, 237, 194,
            228, 242, 128, 239, 73, 46, 237, 44, 205, 93, 227, 118, 128, 119, 208, 216, 88, 25, 28,
            93, 75, 145, 219, 216, 27, 89, 154, 219, 185, 0, 62, 99, 111, 110, 110, 101, 99, 116,
            105, 111, 110, 128, 207, 90, 89, 25, 92, 75, 24, 91, 154, 93, 185, 0, 190, 99, 111,
            110, 116, 101, 110, 116, 45, 108, 101, 110, 103, 116, 104, 208, 53, 121, 1, 252, 198,
            222, 220, 232, 202, 220, 232, 90, 232, 242, 224, 202, 0, 255, 48, 56, 56, 182, 180,
            177, 48, 186, 180, 55, 183, 23, 181, 185, 55, 183,
        ]);
        assert_eq!(jam_of(&cell), jammed_cell);
        assert_eq!(cue_of(jammed_cell), cell);
    }

    // [[%x-cached 'HIT'] [%vary 'Origin'] [%vary 'Accept-Encoding']
    //  [%connection %keep-alive] [%content-length '59']
    //  [%content-type 'application/json']
    //  [%date 'Fri, 08 Jul 2022 16:43:50 GMT'] 0]
    {
        let cell = cl(vec![
            c2(nt("x-cached"), nt("HIT")),
            c2(nt("vary"), nt("Origin")),
            c2(nt("vary"), nt("Accept-Encoding")),
            c2(nt("connection"), nt("keep-alive")),
            c2(nt("content-length"), nt("59")),
            c2(nt("content-type"), nt("application/json")),
            c2(nt("date"), nt("Fri, 08 Jul 2022 16:43:50 GMT")),
            na(0),
        ]);
        let jammed_cell = Atom::from_bytes(vec![
            5, 248, 241, 90, 198, 194, 198, 208, 202, 200, 192, 67, 74, 162, 22, 240, 237, 194,
            228, 242, 128, 239, 73, 46, 237, 44, 205, 93, 227, 118, 128, 119, 208, 216, 88, 25, 28,
            93, 75, 145, 219, 216, 27, 89, 154, 219, 185, 0, 62, 99, 111, 110, 110, 101, 99, 116,
            105, 111, 110, 128, 207, 90, 89, 25, 92, 75, 24, 91, 154, 93, 185, 0, 190, 99, 111,
            110, 116, 101, 110, 116, 45, 108, 101, 110, 103, 116, 104, 208, 53, 121, 1, 252, 198,
            222, 220, 232, 202, 220, 232, 90, 232, 242, 224, 202, 0, 255, 48, 56, 56, 182, 180,
            177, 48, 186, 180, 55, 183, 23, 181, 185, 55, 119, 1, 159, 44, 140, 174, 12, 224, 217,
            72, 46, 141, 5, 4, 6, 7, 68, 169, 142, 13, 68, 6, 70, 70, 6, 36, 198, 70, 135, 102, 70,
            167, 6, 6, 228, 168, 137, 42,
        ]);
        assert_eq!(jam_of(&cell), jammed_cell);
        assert_eq!(cue_of(jammed_cell), cell);
    }

    // [%server 'nginx/1.14.0 (Ubuntu)'] serializes to
    // 36.625.686.482.471.374.629.531.055.727.019.932.223.514.833.888.924.393.604.670.670.633.971.596.801.
    {
        let cell = c2(nt("server"), nt("nginx/1.14.0 (Ubuntu)"));
        let jammed_cell = Atom::from_bytes(vec![
            1, 190, 185, 50, 57, 187, 50, 57, 128, 38, 183, 179, 52, 55, 188, 151, 24, 151, 24, 26,
            23, 24, 16, 148, 42, 177, 58, 55, 186, 186, 20,
        ]);
        assert_eq!(jam_of(&cell), jammed_cell);
        assert_eq!(cue_of(jammed_cell), cell);
    }

    // [[%x-cached 'HIT'] [%vary 'Origin'] [%vary 'Accept-Encoding']
    //  [%connection %keep-alive] [%content-length '59']
    //  [%content-type 'application/json']
    //  [%date 'Fri, 08 Jul 2022 16:43:50 GMT']
    //  [%server 'nginx/1.14.0 (Ubuntu)'] 0]
    {
        let cell = cl(vec![
            c2(nt("x-cached"), nt("HIT")),
            c2(nt("vary"), nt("Origin")),
            c2(nt("vary"), nt("Accept-Encoding")),
            c2(nt("connection"), nt("keep-alive")),
            c2(nt("content-length"), nt("59")),
            c2(nt("content-type"), nt("application/json")),
            c2(nt("date"), nt("Fri, 08 Jul 2022 16:43:50 GMT")),
            c2(nt("server"), nt("nginx/1.14.0 (Ubuntu)")),
            na(0),
        ]);
        let jammed_cell = Atom::from_bytes(vec![
            5, 248, 241, 90, 198, 194, 198, 208, 202, 200, 192, 67, 74, 162, 22, 240, 237, 194,
            228, 242, 128, 239, 73, 46, 237, 44, 205, 93, 227, 118, 128, 119, 208, 216, 88, 25, 28,
            93, 75, 145, 219, 216, 27, 89, 154, 219, 185, 0, 62, 99, 111, 110, 110, 101, 99, 116,
            105, 111, 110, 128, 207, 90, 89, 25, 92, 75, 24, 91, 154, 93, 185, 0, 190, 99, 111,
            110, 116, 101, 110, 116, 45, 108, 101, 110, 103, 116, 104, 208, 53, 121, 1, 252, 198,
            222, 220, 232, 202, 220, 232, 90, 232, 242, 224, 202, 0, 255, 48, 56, 56, 182, 180,
            177, 48, 186, 180, 55, 183, 23, 181, 185, 55, 119, 1, 159, 44, 140, 174, 12, 224, 217,
            72, 46, 141, 5, 4, 6, 7, 68, 169, 142, 13, 68, 6, 70, 70, 6, 36, 198, 70, 135, 102, 70,
            167, 6, 6, 228, 168, 137, 90, 128, 111, 174, 76, 206, 174, 76, 14, 160, 201, 237, 44,
            205, 13, 239, 37, 198, 37, 134, 198, 5, 6, 4, 165, 74, 172, 206, 141, 174, 46, 21,
        ]);
        assert_eq!(jam_of(&cell), jammed_cell);
        assert_eq!(cue_of(jammed_cell), cell);
    }

    // [%request 0 'POST' 'http://eth-mainnet.urbit.org:8545'
    //  [['Content-Type' 'application/json'] 0] 0 78
    //  '[{"params":[],"id":"block number","jsonrpc":"2.0","method":"eth_blockNumber"}]']
    {
        let cell = cl(vec![
            nt("request"),
            na(0),
            nt("POST"),
            nt("http://eth-mainnet.urbit.org:8545"),
            c2(c2(nt("Content-Type"), nt("application/json")), na(0)),
            na(0),
            na(78),
            nt(r#"[{"params":[],"id":"block number","jsonrpc":"2.0","method":"eth_blockNumber"}]"#),
        ]);
        let jammed_cell = Atom::from_bytes(vec![
            1, 94, 185, 178, 184, 186, 178, 57, 122, 6, 124, 168, 167, 41, 106, 0, 52, 64, 163,
            163, 131, 211, 121, 121, 41, 163, 67, 107, 105, 11, 75, 115, 115, 43, 163, 115, 169,
            147, 19, 75, 163, 115, 121, 147, 59, 211, 193, 169, 161, 169, 43, 128, 223, 208, 155,
            27, 93, 153, 27, 93, 11, 85, 30, 92, 25, 224, 31, 6, 7, 199, 150, 54, 22, 70, 151, 246,
            230, 246, 162, 54, 247, 230, 54, 131, 59, 1, 240, 205, 214, 158, 8, 92, 152, 92, 88,
            219, 156, 136, 206, 86, 23, 139, 72, 26, 153, 136, 142, 136, 24, 219, 219, 216, 26,
            136, 91, 93, 155, 88, 153, 156, 8, 139, 136, 218, 220, 155, 155, 28, 220, 152, 136,
            142, 136, 140, 11, 140, 8, 139, 72, 91, 25, 29, 218, 27, 153, 136, 142, 72, 25, 29,
            218, 151, 24, 219, 219, 216, 154, 83, 93, 155, 88, 153, 156, 72, 95, 23,
        ]);
        assert_eq!(jam_of(&cell), jammed_cell);
        assert_eq!(cue_of(jammed_cell), cell);
    }
}

#[test]
fn enum_noun_cue() {}

#[test]
fn mod_noun_cue() {}

#[test]
fn enum_noun_get() {
    // [[4 5] [6 14 15]]
    let tt = c2(na(14), na(15));
    let t = c2(na(6), tt.clone());
    let h = c2(na(4), na(5));
    let n = (*c2(h.clone(), t.clone())).clone();

    assert_eq!(n.get(1), Some(&n));
    assert_eq!(n.get(2), Some(&*h));
    assert_eq!(n.get(3), Some(&*t));
    assert_eq!(n.get(7), Some(&*tt));
    assert_eq!(n.get(12), None);
}

#[test]
fn mod_noun_get() {
    // [[4 5] [6 14 15]]
    let tt = c2(na(14), na(15));
    let t = c2(na(6), tt.clone());
    let h = c2(na(4), na(5));
    let n = (*c2(h.clone(), t.clone())).clone();

    assert_eq!(n.get(1), Some(&n));
    assert_eq!(n.get(2), Some(&*h));
    assert_eq!(n.get(3), Some(&*t));
    assert_eq!(n.get(7), Some(&*tt));
    assert_eq!(n.get(12), None);
}

#[test]
fn cue_reports_malformed_streams() {
    // A lone set bit is a cell tag with nothing after it.
    assert_eq!(Noun::cue(Atom::from_u8(1)), Err(noun::serdes::Error::InvalidTag));
    assert_eq!(
        noun::serdes::Error::InvalidTag.message(),
        "encountered an invalid tag"
    );
    // An empty stream has no tag at all.
    assert_eq!(Noun::cue(Atom::from_u8(0)), Err(noun::serdes::Error::InvalidTag));
    // `0b111`: a back-reference to position zero, which nothing decoded.
    assert_eq!(Noun::cue(Atom::from_u8(7)), Err(noun::serdes::Error::CacheMiss));
    // `0b1000`: an atom whose length prefix runs past the stream.
    assert_eq!(Noun::cue(Atom::from_u8(8)), Err(noun::serdes::Error::InvalidLen));
    // `0b100`: an atom of one bit whose payload is missing.
    assert_eq!(Noun::cue(Atom::from_u8(4)), Err(noun::serdes::Error::AtomBuilding));
    // A back-reference index wider than 64 bits.
    {
        let mut b = noun::atom::Builder::new();
        b.push_bit(true);
        b.push_bit(true);
        // Length 65: seven clear bits, a set bit, then 65's low bits.
        for _ in 0..7 {
            b.push_bit(false);
        }
        b.push_bit(true);
        for bit in [true, false, false, false, false, false] {
            b.push_bit(bit);
        }
        // 65 payload bits.
        for _ in 0..64 {
            b.push_bit(false);
        }
        b.push_bit(true);
        let stream = b.into_atom();
        assert_eq!(Noun::cue(stream), Err(noun::serdes::Error::InvalidBackref));
    }
}

#[test]
fn structural_sharing_resolves() {
    // The same pair object used twice and two equal pair objects encode
    // identically: the cache is keyed by structural equality.
    let shared = c2(na(107), na(110));
    let by_sharing = c2(shared.clone(), shared);
    let by_value = c2(c2(na(107), na(110)), c2(na(107), na(110)));
    assert_eq!(jam_of(&by_sharing), jam_of(&by_value));
}

#[test]
fn roundtrip_mixed_noun() {
    let n = c2(
        cl(vec![nt("a"), nb(vec![1, 2, 3]), na(0)]),
        c2(na(10_000), na(10_000)),
    );
    let jammed = jam_of(&n);
    assert_eq!(cue_of(jammed), n);
}
