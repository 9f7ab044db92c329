use noun::atom::Atom;
use noun::cell::Cell;
use noun::noun::Noun;
use std::rc::Rc;

fn na(v: u128) -> Rc<Noun> {
    Rc::new(Atom::from_u128(v).into_noun())
}

fn nt(s: &str) -> Rc<Noun> {
    Rc::new(Atom::from_text(s).into_noun())
}

fn c2(h: Rc<Noun>, t: Rc<Noun>) -> Rc<Noun> {
    Rc::new(Cell::new(h, t).into_noun())
}

fn cl(elems: Vec<Rc<Noun>>) -> Rc<Noun> {
    Rc::new(Cell::from_vec(elems).into_noun())
}

fn atom_of(n: &Noun) -> &Atom {
    n.as_atom().expect("expected atom")
}

#[test]
fn to_array() {
    {
        let cell = Cell::from_vec(vec![
            nt("request"),
            na(0),
            nt("POST"),
            nt("http://eth-mainnet.urbit.org:8545"),
            c2(c2(nt("Content-Type"), nt("application/json")), na(0)),
            c2(na(0), c2(
                na(78),
                nt(r#"[{"params":[],"id":"block number","jsonrpc":"2.0","method":"eth_blockNumber"}]"#),
            )),
        ]);
        let nouns = cell.to_array(6).expect("as list");
        let (tag, req_num, method, uri, headers, body) =
            (&nouns[0], &nouns[1], &nouns[2], &nouns[3], &nouns[4], &nouns[5]);
        if tag.is_atom() && req_num.is_atom() && method.is_atom() && uri.is_atom() {
            assert_eq!(atom_of(tag).as_str().unwrap(), "request");
            assert_eq!(atom_of(req_num).as_u8().unwrap(), 0u8);
            assert_eq!(atom_of(method).as_str().unwrap(), "POST");
            assert_eq!(
                atom_of(uri).as_str().unwrap(),
                "http://eth-mainnet.urbit.org:8545"
            );
        } else {
            panic!("unexpected cell");
        }
        if let Noun::Cell(headers) = &**headers {
            if let Noun::Cell(header) = &*headers.head() {
                if header.head_ref().is_atom() && header.tail_ref().is_atom() {
                    assert_eq!(atom_of(header.head_ref()).as_str().unwrap(), "Content-Type");
                    assert_eq!(
                        atom_of(header.tail_ref()).as_str().unwrap(),
                        "application/json"
                    );
                } else {
                    panic!("unexpected cell");
                }
            } else {
                panic!("unexpected atom");
            }
            if let Noun::Atom(null) = &*headers.tail() {
                assert_eq!(null.as_u8().unwrap(), 0u8);
            } else {
                panic!("unexpected cell");
            }
        } else {
            panic!("unexpected atom");
        }
        if let Noun::Cell(body) = &**body {
            if let Noun::Atom(null) = &*body.head() {
                assert_eq!(null.as_u8().unwrap(), 0u8);
            } else {
                panic!("unexpected cell");
            }
            if let Noun::Cell(body) = &*body.tail() {
                if body.head_ref().is_atom() && body.tail_ref().is_atom() {
                    assert_eq!(atom_of(body.head_ref()).as_u8().unwrap(), 78u8);
                    assert_eq!(
                        atom_of(body.tail_ref()).as_str().unwrap(),
                        r#"[{"params":[],"id":"block number","jsonrpc":"2.0","method":"eth_blockNumber"}]"#
                    );
                } else {
                    panic!("unexpected cell");
                }
            } else {
                panic!("unexpected atom");
            }
        } else {
            panic!("unexpected atom");
        }
    }

    {
        let cell = Cell::from_vec(vec![na(0), na(1), na(2), na(3)]);
        assert_eq!(cell.to_array(6), None);
    }
}

#[test]
fn from_vec() {
    {
        let _0 = na(0);
        let _2 = na(2);
        let _8 = na(8);
        let _32 = na(32);
        let _128 = na(128);
        let cell = Cell::from_vec(vec![
            _0.clone(),
            _2.clone(),
            _8.clone(),
            _32.clone(),
            _128.clone(),
        ]);

        let nouns = cell.to_array(5).expect("cell to array");
        assert_eq!(nouns.len(), 5);
        assert_eq!(nouns[0], _0);
        assert_eq!(nouns[1], _2);
        assert_eq!(nouns[2], _8);
        assert_eq!(nouns[3], _32);
        assert_eq!(nouns[4], _128);
    }
}

#[test]
fn heads_and_tails() {
    let cell_rc = cl(vec![na(1), na(2), na(3)]);
    let cell = match &*cell_rc {
        Noun::Cell(c) => c,
        Noun::Atom(_) => panic!("unexpected atom"),
    };
    assert_eq!(atom_of(&cell.head()).as_u8().unwrap(), 1u8);
    let tail = cell.tail();
    match &*tail {
        Noun::Cell(inner) => {
            assert_eq!(atom_of(inner.head_ref()).as_u8().unwrap(), 2u8);
            assert_eq!(atom_of(inner.tail_ref()).as_u8().unwrap(), 3u8);
        },
        Noun::Atom(_) => panic!("unexpected atom"),
    }
    let (h, t) = (*cell_rc).clone().into_cell().unwrap().into_parts();
    assert_eq!(atom_of(&h).as_u8().unwrap(), 1u8);
    assert!(t.is_cell());
}
