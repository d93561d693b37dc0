//! Compact serialization of a JSON value: minimal separators, no inserted
//! whitespace, strings escaped exactly as the common JSON writers escape them
//! (`"`, `\`, and the control bytes; everything else verbatim). The webhook
//! signature is computed over these bytes, so the byte layout is part of the
//! contract: [`ser`] defines it and [`serialize_json`] is proved to emit it.

use vstd::prelude::*;

use crate::json::{JsonValue, JsonModel, model, model_elems, model_members};
use crate::json::{lemma_model_elems_index, lemma_model_members_index};

verus! {

/// The lowercase hex digit of a value below 16.
pub open spec fn hex_digit(n: u8) -> u8 {
    if n < 10 {
        (48 + n) as u8
    } else {
        (87 + n) as u8
    }
}

/// The escape of one string byte: `\"`, `\\`, `\b`, `\t`, `\n`, `\f`, `\r`,
/// `\u00XX` for the remaining control bytes, and every other byte verbatim.
pub open spec fn esc_byte(b: u8) -> Seq<u8> {
    if b == 0x22 {
        seq![0x5c, 0x22]
    } else if b == 0x5c {
        seq![0x5c, 0x5c]
    } else if b == 0x08 {
        seq![0x5c, 0x62]
    } else if b == 0x09 {
        seq![0x5c, 0x74]
    } else if b == 0x0a {
        seq![0x5c, 0x6e]
    } else if b == 0x0c {
        seq![0x5c, 0x66]
    } else if b == 0x0d {
        seq![0x5c, 0x72]
    } else if b < 0x20 {
        seq![0x5c, 0x75, 0x30, 0x30, hex_digit(b / 16), hex_digit(b % 16)]
    } else {
        seq![b]
    }
}

/// The escaped form of a whole string, byte for byte.
pub open spec fn escape(s: Seq<u8>) -> Seq<u8>
    decreases s.len(),
{
    if s.len() == 0 {
        Seq::empty()
    } else {
        esc_byte(s[0]) + escape(s.drop_first())
    }
}

proof fn lemma_escape_push(a: Seq<u8>, x: u8)
    ensures
        escape(a.push(x)) == escape(a) + esc_byte(x),
    decreases a.len(),
{
    if a.len() == 0 {
        assert(a.push(x)[0] == x);
        assert(a.push(x).drop_first() =~= Seq::<u8>::empty());
        assert(escape(a.push(x).drop_first()) == escape(Seq::<u8>::empty()));
        assert(escape(a.push(x)) =~= esc_byte(x));
        assert(escape(a) + esc_byte(x) =~= esc_byte(x));
    } else {
        assert(a.push(x)[0] == a[0]);
        assert(a.push(x).drop_first() =~= a.drop_first().push(x));
        lemma_escape_push(a.drop_first(), x);
        assert(esc_byte(a[0]) + (escape(a.drop_first()) + esc_byte(x)) =~= (esc_byte(a[0]) + escape(
            a.drop_first(),
        )) + esc_byte(x));
    }
}

/// A string as serialized: quoted and escaped.
pub open spec fn ser_text(s: Seq<u8>) -> Seq<u8> {
    seq![0x22u8] + escape(s) + seq![0x22u8]
}

/// The serialization of a JSON value with minimal separators.
pub open spec fn ser(m: JsonModel) -> Seq<u8>
    decreases m,
{
    match m {
        JsonModel::Null => seq![0x6eu8, 0x75, 0x6c, 0x6c],
        JsonModel::Bool(b) => if b {
            seq![0x74u8, 0x72, 0x75, 0x65]
        } else {
            seq![0x66u8, 0x61, 0x6c, 0x73, 0x65]
        },
        JsonModel::Number(n) => n,
        JsonModel::Text(s) => ser_text(s),
        JsonModel::Array(elems) => seq![0x5bu8] + ser_elems(elems) + seq![0x5du8],
        JsonModel::Object(members) => seq![0x7bu8] + ser_members(members) + seq![0x7du8],
    }
}

/// Array elements joined by commas.
pub open spec fn ser_elems(s: Seq<JsonModel>) -> Seq<u8>
    decreases s,
{
    if s.len() == 0 {
        Seq::empty()
    } else if s.len() == 1 {
        ser(s[0])
    } else {
        ser(s[0]) + seq![0x2cu8] + ser_elems(s.drop_first())
    }
}

/// Object members, each `"key":value`, joined by commas.
pub open spec fn ser_members(s: Seq<(Seq<u8>, JsonModel)>) -> Seq<u8>
    decreases s,
{
    if s.len() == 0 {
        Seq::empty()
    } else if s.len() == 1 {
        ser_member(s[0])
    } else {
        ser_member(s[0]) + seq![0x2cu8] + ser_members(s.drop_first())
    }
}

pub open spec fn ser_member(m: (Seq<u8>, JsonModel)) -> Seq<u8>
    decreases m,
{
    ser_text(m.0) + seq![0x3au8] + ser(m.1)
}

fn write_escaped(s: &Vec<u8>, out: &mut Vec<u8>)
    ensures
        final(out)@ == old(out)@ + ser_text(s@),
{
    out.push(0x22);
    let mut i: usize = 0;
    while i < s.len()
        invariant
            i <= s@.len(),
            out@ == old(out)@ + seq![0x22u8] + escape(s@.take(i as int)),
        decreases s@.len() - i,
    {
        let b = s[i];
        proof {
            assert(s@.take(i + 1) =~= s@.take(i as int).push(s@[i as int]));
            lemma_escape_push(s@.take(i as int), s@[i as int]);
        }
        let ghost mid = out@;
        if b == 0x22 {
            out.push(0x5c);
            out.push(0x22);
            proof {
                assert(out@ =~= mid + esc_byte(b));
            }
        } else if b == 0x5c {
            out.push(0x5c);
            out.push(0x5c);
            proof {
                assert(out@ =~= mid + esc_byte(b));
            }
        } else if b == 0x08 {
            out.push(0x5c);
            out.push(0x62);
            proof {
                assert(out@ =~= mid + esc_byte(b));
            }
        } else if b == 0x09 {
            out.push(0x5c);
            out.push(0x74);
            proof {
                assert(out@ =~= mid + esc_byte(b));
            }
        } else if b == 0x0a {
            out.push(0x5c);
            out.push(0x6e);
            proof {
                assert(out@ =~= mid + esc_byte(b));
            }
        } else if b == 0x0c {
            out.push(0x5c);
            out.push(0x66);
            proof {
                assert(out@ =~= mid + esc_byte(b));
            }
        } else if b == 0x0d {
            out.push(0x5c);
            out.push(0x72);
            proof {
                assert(out@ =~= mid + esc_byte(b));
            }
        } else if b < 0x20 {
            out.push(0x5c);
            out.push(0x75);
            out.push(0x30);
            out.push(0x30);
            out.push(if b / 16 < 10 {
                48 + b / 16
            } else {
                87 + b / 16
            });
            out.push(if b % 16 < 10 {
                48 + b % 16
            } else {
                87 + b % 16
            });
            proof {
                assert(out@ =~= mid + esc_byte(b));
            }
        } else {
            out.push(b);
            proof {
                assert(out@ =~= mid + esc_byte(b));
            }
        }
        proof {
            assert(out@ =~= old(out)@ + seq![0x22u8] + escape(s@.take(i + 1)));
        }
        i = i + 1;
    }
    out.push(0x22);
    proof {
        assert(s@.take(s@.len() as int) =~= s@);
        assert(out@ =~= old(out)@ + ser_text(s@));
    }
}

fn write_value(v: &JsonValue, out: &mut Vec<u8>)
    ensures
        final(out)@ == old(out)@ + ser((*v)@),
    decreases *v, 0int,
{
    match v {
        JsonValue::Null => {
            out.push(0x6e);
            out.push(0x75);
            out.push(0x6c);
            out.push(0x6c);
            proof {
                assert(out@ =~= old(out)@ + ser((*v)@));
            }
        },
        JsonValue::Bool(b) => {
            if *b {
                out.push(0x74);
                out.push(0x72);
                out.push(0x75);
                out.push(0x65);
            } else {
                out.push(0x66);
                out.push(0x61);
                out.push(0x6c);
                out.push(0x73);
                out.push(0x65);
            }
            proof {
                assert(out@ =~= old(out)@ + ser((*v)@));
            }
        },
        JsonValue::Number(n) => {
            crate::bytes_util::push_bytes(out, n);
        },
        JsonValue::Text(s) => {
            write_escaped(s, out);
        },
        JsonValue::Array(elems) => {
            out.push(0x5b);
            if elems.len() > 0 {
                proof {
                    let va = *v;
                    assert(va->Array_0 == *elems);
                    assert(decreases_to!(va => va->Array_0));
                }
                write_elems(elems, 0, out);
                proof {
                    assert(model_elems(elems@).skip(0) =~= model_elems(elems@));
                }
            }
            out.push(0x5d);
            proof {
                assert(out@ =~= old(out)@ + ser((*v)@));
            }
        },
        JsonValue::Object(members) => {
            out.push(0x7b);
            if members.len() > 0 {
                proof {
                    let vo = *v;
                    assert(vo->Object_0 == *members);
                    assert(decreases_to!(vo => vo->Object_0));
                }
                write_members(members, 0, out);
                proof {
                    assert(model_members(members@).skip(0) =~= model_members(members@));
                }
            }
            out.push(0x7d);
            proof {
                assert(out@ =~= old(out)@ + ser((*v)@));
            }
        },
    }
}

fn write_elems(elems: &Vec<JsonValue>, i: usize, out: &mut Vec<u8>)
    requires
        i < elems@.len(),
    ensures
        final(out)@ == old(out)@ + ser_elems(model_elems(elems@).skip(i as int)),
    decreases *elems, elems@.len() - i,
{
    proof {
        lemma_model_elems_index(elems@);
        assert(decreases_to!(*elems => elems@));
        assert(decreases_to!(elems@ => elems@[i as int]));
    }
    write_value(&elems[i], out);
    let ghost rest = model_elems(elems@).skip(i as int);
    proof {
        assert(rest[0] == model_elems(elems@)[i as int]);
    }
    let n = elems.len();
    if i < n - 1 {
        out.push(0x2c);
        let ghost mid = out@;
        write_elems(elems, i + 1, out);
        proof {
            assert(rest.drop_first() =~= model_elems(elems@).skip(i + 1));
            assert(rest.len() == elems@.len() - i);
            assert(ser_elems(rest) == ser(rest[0]) + seq![0x2cu8] + ser_elems(rest.drop_first()));
            assert(out@ =~= old(out)@ + ser_elems(rest));
        }
    } else {
        proof {
            assert(rest.len() == 1);
            assert(ser_elems(rest) == ser(rest[0]));
            assert(out@ =~= old(out)@ + ser_elems(rest));
        }
    }
}

fn write_members(members: &Vec<(Vec<u8>, JsonValue)>, i: usize, out: &mut Vec<u8>)
    requires
        i < members@.len(),
    ensures
        final(out)@ == old(out)@ + ser_members(model_members(members@).skip(i as int)),
    decreases *members, members@.len() - i,
{
    proof {
        lemma_model_members_index(members@);
        assert(decreases_to!(*members => members@));
        assert(decreases_to!(members@ => members@[i as int]));
        assert(decreases_to!(members@[i as int] => members@[i as int].1));
    }
    let ghost rest = model_members(members@).skip(i as int);
    proof {
        assert(rest[0] == model_members(members@)[i as int]);
    }
    write_escaped(&members[i].0, out);
    out.push(0x3a);
    write_value(&members[i].1, out);
    let ghost first_done = out@;
    proof {
        assert(first_done =~= old(out)@ + ser_member(rest[0]));
    }
    let n = members.len();
    if i < n - 1 {
        out.push(0x2c);
        write_members(members, i + 1, out);
        proof {
            assert(rest.drop_first() =~= model_members(members@).skip(i + 1));
            assert(rest.len() == members@.len() - i);
            assert(ser_members(rest) == ser_member(rest[0]) + seq![0x2cu8] + ser_members(
                rest.drop_first(),
            ));
            assert(out@ =~= old(out)@ + ser_members(rest));
        }
    } else {
        proof {
            assert(rest.len() == 1);
            assert(ser_members(rest) == ser_member(rest[0]));
            assert(out@ =~= old(out)@ + ser_members(rest));
        }
    }
}

/// Serializes a JSON value to compact bytes: no whitespace beyond the minimal
/// separators, exactly the bytes [`ser`] describes.
pub fn serialize_json(v: &JsonValue) -> (out: Vec<u8>)
    ensures
        out@ == ser((*v)@),
{
    let mut out: Vec<u8> = Vec::new();
    write_value(v, &mut out);
    proof {
        assert(out@ =~= ser((*v)@));
    }
    out
}

} // verus!
