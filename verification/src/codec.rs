//! The registry document: the canonical text form in which the list of
//! tracked applications is persisted.
//!
//! The document holds one block per application, each giving the name,
//! the configuration path and the file names. A missing, empty or
//! unreadable document stands for the empty registry: first use of the
//! manager must not fail. Decoding accepts exactly the canonical form
//! and falls back to the empty registry on anything else.

use crate::fileman::{App, AppView, Apps};
use vstd::prelude::*;

verus! {

/// A character a field can carry: any but the control characters, which
/// the line-oriented document cannot hold.
pub open spec fn field_char(c: char) -> bool {
    c as u32 >= 0x20
}

/// A string a field can carry.
pub open spec fn field_ok(s: Seq<char>) -> bool {
    forall|i: int| 0 <= i < s.len() ==> field_char(s[i])
}

/// The escaped form of one character: the quote and the backslash go
/// behind a backslash, every other character stands as itself.
pub open spec fn escc(c: char) -> Seq<char> {
    if c == '"' {
        seq!['\\', '"']
    } else if c == '\\' {
        seq!['\\', '\\']
    } else {
        seq![c]
    }
}

/// The escaped form of a field.
pub open spec fn esc(s: Seq<char>) -> Seq<char>
    decreases s.len(),
{
    if s.len() == 0 {
        Seq::empty()
    } else {
        esc(s.drop_last()) + escc(s.last())
    }
}

/// An application the document can carry: a non-empty name, and no
/// control character in any field.
pub open spec fn app_encodable(a: AppView) -> bool {
    &&& a.name.len() > 0
    &&& field_ok(a.name)
    &&& field_ok(a.config_path)
    &&& forall|j: int| 0 <= j < a.file_names.len() ==> field_ok(#[trigger] a.file_names[j])
}

/// A registry the document can carry.
pub open spec fn apps_encodable(items: Seq<AppView>) -> bool {
    forall|i: int| 0 <= i < items.len() ==> app_encodable(#[trigger] items[i])
}

/// The quoted, comma-separated list of file names.
pub open spec fn spec_file_list(names: Seq<Seq<char>>) -> Seq<char>
    decreases names.len(),
{
    if names.len() == 0 {
        Seq::empty()
    } else if names.len() == 1 {
        ("\""@ + esc(names[0])) + "\""@
    } else {
        ((spec_file_list(names.drop_last()) + ", \""@) + esc(names.last())) + "\""@
    }
}

/// One application's block of the document.
pub open spec fn spec_block(a: AppView) -> Seq<char> {
    "[[items]]\nname = \""@ + esc(a.name) + "\"\nconfig_path = \""@ + esc(a.config_path)
        + "\"\nfile_names = ["@ + spec_file_list(a.file_names) + "]\n"@
}

/// The concatenated blocks of a non-empty registry.
pub open spec fn spec_blocks(items: Seq<AppView>) -> Seq<char>
    decreases items.len(),
{
    if items.len() == 0 {
        Seq::empty()
    } else {
        spec_blocks(items.drop_last()) + spec_block(items.last())
    }
}

/// The canonical document of a registry: its blocks, or the empty list
/// written out.
pub open spec fn spec_encode(items: Seq<AppView>) -> Seq<char> {
    if items.len() == 0 {
        "items = []\n"@
    } else {
        spec_blocks(items)
    }
}

/// Equal sequences with the same prefix have equal remainders.
proof fn lemma_cancel_prefix(x: Seq<char>, a: Seq<char>, b: Seq<char>)
    requires
        x + a == x + b,
    ensures
        a == b,
{
    assert((x + a).len() == x.len() + a.len());
    assert((x + b).len() == x.len() + b.len());
    assert(a.len() == b.len());
    assert(a =~= b) by {
        assert forall|i: int| 0 <= i < a.len() implies a[i] == b[i] by {
            assert((x + a)[x.len() + i] == a[i]);
            assert((x + b)[x.len() + i] == b[i]);
        }
    }
}

/// The escaped field from its first character on.
proof fn lemma_esc_front(s: Seq<char>)
    requires
        s.len() > 0,
    ensures
        esc(s) == escc(s[0]) + esc(s.drop_first()),
    decreases s.len(),
{
    if s.len() == 1 {
        assert(esc(s.drop_last()) =~= Seq::<char>::empty());
        assert(s.drop_first() =~= Seq::<char>::empty());
        assert(esc(s) =~= escc(s[0]) + esc(s.drop_first()));
    } else {
        lemma_esc_front(s.drop_last());
        assert(s.drop_last()[0] == s[0]);
        assert(s.drop_last().drop_first() =~= s.drop_first().drop_last());
        assert(s.drop_first().len() > 0);
        assert(s.drop_first().last() == s.last());
        assert(esc(s.drop_first()) == esc(s.drop_first().drop_last()) + escc(
            s.drop_first().last(),
        ));
        assert(esc(s) =~= escc(s[0]) + esc(s.drop_first()));
    }
}

/// An escaped field followed by its unescaped closing quote reaches
/// exactly to that quote: equal such sequences split identically, and the
/// fields they carry were the same before escaping.
proof fn lemma_esc_unquote(n1: Seq<char>, t1: Seq<char>, n2: Seq<char>, t2: Seq<char>)
    requires
        esc(n1) + seq!['"'] + t1 == esc(n2) + seq!['"'] + t2,
    ensures
        n1 == n2,
        t1 == t2,
    decreases n1.len(),
{
    let w = esc(n1) + seq!['"'] + t1;
    let w2 = esc(n2) + seq!['"'] + t2;
    if n1.len() == 0 && n2.len() == 0 {
        assert(esc(n1) =~= Seq::<char>::empty());
        assert(esc(n2) =~= Seq::<char>::empty());
        assert(w =~= seq!['"'] + t1);
        assert(w2 =~= seq!['"'] + t2);
        lemma_cancel_prefix(seq!['"'], t1, t2);
        assert(n1 =~= n2);
    } else if n1.len() == 0 {
        lemma_esc_front(n2);
        assert(esc(n1) =~= Seq::<char>::empty());
        assert(w[0] == '"');
        assert(w2 =~= escc(n2[0]) + ((esc(n2.drop_first()) + seq!['"']) + t2));
        assert(w2[0] == escc(n2[0])[0]);
        assert(escc(n2[0])[0] != '"');
    } else if n2.len() == 0 {
        lemma_esc_front(n1);
        assert(esc(n2) =~= Seq::<char>::empty());
        assert(w2[0] == '"');
        assert(w =~= escc(n1[0]) + ((esc(n1.drop_first()) + seq!['"']) + t1));
        assert(w[0] == escc(n1[0])[0]);
        assert(escc(n1[0])[0] != '"');
    } else {
        lemma_esc_front(n1);
        lemma_esc_front(n2);
        let c1 = n1[0];
        let c2 = n2[0];
        assert(w =~= escc(c1) + ((esc(n1.drop_first()) + seq!['"']) + t1));
        assert(w2 =~= escc(c2) + ((esc(n2.drop_first()) + seq!['"']) + t2));
        if c1 == '"' || c1 == '\\' {
            assert(w[0] == '\\');
            assert(c2 == '"' || c2 == '\\') by {
                if !(c2 == '"' || c2 == '\\') {
                    assert(w2[0] == c2);
                }
            }
            assert(w[1] == c1);
            assert(w2[1] == c2);
            assert(c1 == c2);
        } else {
            assert(w[0] == c1);
            assert(!(c2 == '"' || c2 == '\\')) by {
                if c2 == '"' || c2 == '\\' {
                    assert(w2[0] == '\\');
                }
            }
            assert(w2[0] == c2);
            assert(c1 == c2);
        }
        lemma_cancel_prefix(
            escc(c1),
            (esc(n1.drop_first()) + seq!['"']) + t1,
            (esc(n2.drop_first()) + seq!['"']) + t2,
        );
        lemma_esc_unquote(n1.drop_first(), t1, n2.drop_first(), t2);
        assert(n1 =~= n2) by {
            assert forall|i: int| 0 <= i < n1.len() implies n1[i] == n2[i] by {
                if i > 0 {
                    assert(n1.drop_first()[i - 1] == n2.drop_first()[i - 1]);
                }
            }
        }
    }
}

/// A written-out, non-empty file-name list starts with its opening quote.
proof fn lemma_file_list_first_char(names: Seq<Seq<char>>)
    requires
        names.len() > 0,
    ensures
        spec_file_list(names).len() >= 1,
        spec_file_list(names)[0] == '"',
    decreases names.len(),
{
    reveal_strlit("\"");
    if names.len() > 1 {
        lemma_file_list_first_char(names.drop_last());
    }
}

/// A written-out, non-empty file-name list from its first element on: the
/// first name quoted, then the remaining list behind the separator.
proof fn lemma_file_list_front(names: Seq<Seq<char>>)
    requires
        names.len() > 0,
    ensures
        names.len() == 1 ==> spec_file_list(names) == seq!['"'] + (esc(names[0]) + seq!['"']
            + Seq::<char>::empty()),
        names.len() > 1 ==> spec_file_list(names) == seq!['"'] + (esc(names[0]) + seq!['"'] + (", "@
            + spec_file_list(names.drop_first()))),
    decreases names.len(),
{
    reveal_strlit("\"");
    reveal_strlit(", ");
    reveal_strlit(", \"");
    if names.len() == 1 {
        assert(spec_file_list(names) =~= seq!['"'] + (esc(names[0]) + seq!['"']
            + Seq::<char>::empty()));
    } else {
        lemma_file_list_front(names.drop_last());
        if names.len() == 2 {
            assert(names.drop_last().len() == 1);
            assert(names.drop_first().len() == 1);
            assert(names.drop_last()[0] == names[0]);
            assert(names.drop_first()[0] == names[1]);
            assert(spec_file_list(names) =~= seq!['"'] + (esc(names[0]) + seq!['"'] + (", "@
                + spec_file_list(names.drop_first()))));
        } else {
            assert(names.drop_last()[0] == names[0]);
            assert(names.drop_last().drop_first() =~= names.drop_first().drop_last());
            assert(names.drop_first().len() > 1);
            assert(names.drop_first().last() == names.last());
            assert(spec_file_list(names.drop_first()) == spec_file_list(
                names.drop_first().drop_last(),
            ) + ", \""@ + esc(names.last()) + "\""@);
            assert(spec_file_list(names) =~= seq!['"'] + (esc(names[0]) + seq!['"'] + (", "@
                + spec_file_list(names.drop_first()))));
        }
    }
}

/// Two written-out file-name lists, each closed by the bracket and
/// followed by arbitrary text, coincide only name for name, text for
/// text.
proof fn lemma_file_list_unique(ns: Seq<Seq<char>>, t1: Seq<char>, ms: Seq<Seq<char>>, t2: Seq<
    char,
>)
    requires
        spec_file_list(ns) + "]\n"@ + t1 == spec_file_list(ms) + "]\n"@ + t2,
    ensures
        ns == ms,
        t1 == t2,
    decreases ns.len(),
{
    reveal_strlit("]\n");
    reveal_strlit("\"");
    reveal_strlit(", ");
    let w1 = spec_file_list(ns) + "]\n"@ + t1;
    let w2 = spec_file_list(ms) + "]\n"@ + t2;
    if ns.len() == 0 && ms.len() == 0 {
        assert(w1 =~= "]\n"@ + t1);
        assert(w2 =~= "]\n"@ + t2);
        lemma_cancel_prefix("]\n"@, t1, t2);
        assert(ns =~= ms);
    } else if ns.len() == 0 {
        lemma_file_list_first_char(ms);
        assert(w1[0] == ']');
        assert(w2[0] == '"');
    } else if ms.len() == 0 {
        lemma_file_list_first_char(ns);
        assert(w1[0] == '"');
        assert(w2[0] == ']');
    } else {
        lemma_file_list_front(ns);
        lemma_file_list_front(ms);
        let r1 = if ns.len() == 1 {
            "]\n"@ + t1
        } else {
            ", "@ + (spec_file_list(ns.drop_first()) + "]\n"@ + t1)
        };
        let r2 = if ms.len() == 1 {
            "]\n"@ + t2
        } else {
            ", "@ + (spec_file_list(ms.drop_first()) + "]\n"@ + t2)
        };
        assert(w1 =~= seq!['"'] + (esc(ns[0]) + seq!['"'] + r1));
        assert(w2 =~= seq!['"'] + (esc(ms[0]) + seq!['"'] + r2));
        lemma_cancel_prefix(seq!['"'], esc(ns[0]) + seq!['"'] + r1, esc(ms[0]) + seq!['"'] + r2);
        lemma_esc_unquote(ns[0], r1, ms[0], r2);
        if ns.len() == 1 && ms.len() == 1 {
            lemma_cancel_prefix("]\n"@, t1, t2);
            assert(ns =~= ms);
        } else if ns.len() == 1 {
            assert(r1[0] == ']');
            assert(r2[0] == ',');
        } else if ms.len() == 1 {
            assert(r1[0] == ',');
            assert(r2[0] == ']');
        } else {
            lemma_cancel_prefix(", "@, spec_file_list(ns.drop_first()) + "]\n"@ + t1,
                spec_file_list(ms.drop_first()) + "]\n"@ + t2);
            lemma_file_list_unique(ns.drop_first(), t1, ms.drop_first(), t2);
            assert(ns =~= ms) by {
                assert forall|i: int| 0 <= i < ns.len() implies ns[i] == ms[i] by {
                    if i > 0 {
                        assert(ns.drop_first()[i - 1] == ms.drop_first()[i - 1]);
                    }
                }
            }
        }
    }
}

/// Two application blocks followed by arbitrary text coincide only field
/// for field, text for text.
proof fn lemma_block_unique(a1: AppView, t1: Seq<char>, a2: AppView, t2: Seq<char>)
    requires
        spec_block(a1) + t1 == spec_block(a2) + t2,
    ensures
        a1 == a2,
        t1 == t2,
{
    reveal_strlit("[[items]]\nname = \"");
    reveal_strlit("\"\nconfig_path = \"");
    reveal_strlit("\"\nfile_names = [");
    reveal_strlit("\nconfig_path = \"");
    reveal_strlit("\nfile_names = [");
    reveal_strlit("\"");
    let rest1 = "\nconfig_path = \""@ + (esc(a1.config_path) + seq!['"'] + ("\nfile_names = ["@
        + (spec_file_list(a1.file_names) + "]\n"@ + t1)));
    let rest2 = "\nconfig_path = \""@ + (esc(a2.config_path) + seq!['"'] + ("\nfile_names = ["@
        + (spec_file_list(a2.file_names) + "]\n"@ + t2)));
    assert(spec_block(a1) + t1 =~= "[[items]]\nname = \""@ + (esc(a1.name) + seq!['"'] + rest1));
    assert(spec_block(a2) + t2 =~= "[[items]]\nname = \""@ + (esc(a2.name) + seq!['"'] + rest2));
    lemma_cancel_prefix(
        "[[items]]\nname = \""@,
        esc(a1.name) + seq!['"'] + rest1,
        esc(a2.name) + seq!['"'] + rest2,
    );
    lemma_esc_unquote(a1.name, rest1, a2.name, rest2);
    lemma_cancel_prefix(
        "\nconfig_path = \""@,
        esc(a1.config_path) + seq!['"'] + ("\nfile_names = ["@ + (spec_file_list(a1.file_names)
            + "]\n"@ + t1)),
        esc(a2.config_path) + seq!['"'] + ("\nfile_names = ["@ + (spec_file_list(a2.file_names)
            + "]\n"@ + t2)),
    );
    lemma_esc_unquote(
        a1.config_path,
        "\nfile_names = ["@ + (spec_file_list(a1.file_names) + "]\n"@ + t1),
        a2.config_path,
        "\nfile_names = ["@ + (spec_file_list(a2.file_names) + "]\n"@ + t2),
    );
    lemma_cancel_prefix(
        "\nfile_names = ["@,
        spec_file_list(a1.file_names) + "]\n"@ + t1,
        spec_file_list(a2.file_names) + "]\n"@ + t2,
    );
    lemma_file_list_unique(a1.file_names, t1, a2.file_names, t2);
    assert(a1 =~= a2);
}

/// A written-out, non-empty registry starts with its first block's
/// opening bracket.
proof fn lemma_blocks_first_char(items: Seq<AppView>)
    requires
        items.len() > 0,
    ensures
        spec_blocks(items).len() >= 1,
        spec_blocks(items)[0] == '[',
    decreases items.len(),
{
    reveal_strlit("[[items]]\nname = \"");
    if items.len() > 1 {
        lemma_blocks_first_char(items.drop_last());
    } else {
        assert(spec_blocks(items.drop_last()) =~= Seq::<char>::empty());
        assert(spec_block(items.last())[0] == '[');
    }
}

/// The blocks of a registry from its first entry on.
proof fn lemma_blocks_front(items: Seq<AppView>)
    requires
        items.len() > 0,
    ensures
        spec_blocks(items) == spec_block(items[0]) + spec_blocks(items.drop_first()),
    decreases items.len(),
{
    if items.len() == 1 {
        assert(spec_blocks(items.drop_last()) =~= Seq::<char>::empty());
        assert(spec_blocks(items.drop_first()) =~= Seq::<char>::empty());
        assert(spec_blocks(items) =~= spec_block(items[0]) + spec_blocks(items.drop_first()));
    } else {
        lemma_blocks_front(items.drop_last());
        assert(items.drop_last()[0] == items[0]);
        assert(items.drop_last().drop_first() =~= items.drop_first().drop_last());
        assert(items.drop_first().last() == items.last());
        assert(items.drop_first().len() > 0);
        assert(spec_blocks(items.drop_first()) == spec_blocks(items.drop_first().drop_last())
            + spec_block(items.drop_first().last()));
        assert(spec_blocks(items) =~= spec_block(items[0]) + spec_blocks(items.drop_first()));
    }
}

/// Two written-out registries coincide only entry for entry.
proof fn lemma_blocks_unique(xs: Seq<AppView>, ys: Seq<AppView>)
    requires
        spec_blocks(xs) == spec_blocks(ys),
    ensures
        xs == ys,
    decreases xs.len(),
{
    if xs.len() == 0 && ys.len() == 0 {
        assert(xs =~= ys);
    } else if xs.len() == 0 {
        lemma_blocks_first_char(ys);
        assert(spec_blocks(xs).len() == 0);
    } else if ys.len() == 0 {
        lemma_blocks_first_char(xs);
        assert(spec_blocks(ys).len() == 0);
    } else {
        lemma_blocks_front(xs);
        lemma_blocks_front(ys);
        lemma_block_unique(xs[0], spec_blocks(xs.drop_first()), ys[0], spec_blocks(
            ys.drop_first(),
        ));
        lemma_blocks_unique(xs.drop_first(), ys.drop_first());
        assert(xs =~= ys) by {
            assert forall|i: int| 0 <= i < xs.len() implies xs[i] == ys[i] by {
                if i > 0 {
                    assert(xs.drop_first()[i - 1] == ys.drop_first()[i - 1]);
                }
            }
        }
    }
}

/// Law: the canonical document determines the registry: two registries
/// never share an encoding.
pub proof fn lemma_encode_injective(xs: Seq<AppView>, ys: Seq<AppView>)
    requires
        spec_encode(xs) == spec_encode(ys),
    ensures
        xs == ys,
{
    reveal_strlit("items = []\n");
    if xs.len() == 0 && ys.len() == 0 {
        assert(xs =~= ys);
    } else if xs.len() == 0 {
        lemma_blocks_first_char(ys);
        assert(spec_encode(xs)[0] == 'i');
    } else if ys.len() == 0 {
        lemma_blocks_first_char(xs);
        assert(spec_encode(ys)[0] == 'i');
    } else {
        lemma_blocks_unique(xs, ys);
    }
}

/// Whether the string is free of control characters.
fn is_field_ok(s: &str) -> (r: bool)
    ensures
        r == field_ok(s@),
{
    let n = s.unicode_len();
    let mut i: usize = 0;
    while i < n
        invariant
            n == s@.len(),
            i <= n,
            forall|k: int| 0 <= k < i ==> field_char(s@[k]),
        decreases n - i,
    {
        let c = s.get_char(i);
        if (c as u32) < 0x20 {
            return false;
        }
        i = i + 1;
    }
    true
}

/// Appends the field in its escaped form: a backslash before each quote
/// and each backslash, every other character as itself.
fn push_escaped(out: &mut String, s: &str)
    ensures
        final(out)@ == old(out)@ + esc(s@),
{
    let n = s.unicode_len();
    let ghost base = old(out)@;
    proof {
        reveal_strlit("\\\"");
        reveal_strlit("\\\\");
        assert(esc(s@.take(0)) =~= Seq::<char>::empty());
        assert(out@ =~= base + esc(s@.take(0)));
    }
    let mut i: usize = 0;
    while i < n
        invariant
            n == s@.len(),
            i <= n,
            out@ == base + esc(s@.take(i as int)),
        decreases n - i,
    {
        proof {
            reveal_strlit("\\\"");
            reveal_strlit("\\\\");
            assert(s@.take(i + 1 as int).drop_last() =~= s@.take(i as int));
            assert(s@.take(i + 1 as int).last() == s@[i as int]);
        }
        let c = s.get_char(i);
        let ghost out_pre = out@;
        if c == '"' {
            out.append("\\\"");
            proof {
                assert(out@ =~= out_pre + escc(s@[i as int]));
            }
        } else if c == '\\' {
            out.append("\\\\");
            proof {
                assert(out@ =~= out_pre + escc(s@[i as int]));
            }
        } else {
            out.append(s.substring_char(i, i + 1));
            proof {
                assert(s@.subrange(i as int, i + 1 as int) =~= seq![s@[i as int]]);
                assert(out@ =~= out_pre + escc(s@[i as int]));
            }
        }
        proof {
            assert(out@ =~= base + esc(s@.take(i + 1 as int)));
        }
        i = i + 1;
    }
    proof {
        assert(s@.take(n as int) =~= s@);
    }
}

/// Appends the quoted, comma-separated file-name list.
fn push_file_list(out: &mut String, file_names: &Vec<String>)
    ensures
        final(out)@ == old(out)@ + spec_file_list(file_names.deep_view()),
{
    let ghost names = file_names.deep_view();
    let ghost base = old(out)@;
    let mut j: usize = 0;
    while j < file_names.len()
        invariant
            names == file_names.deep_view(),
            j <= file_names.len(),
            out@ == base + spec_file_list(names.take(j as int)),
        decreases file_names.len() - j,
    {
        proof {
            assert(names.take(j + 1 as int).drop_last() =~= names.take(j as int));
            assert(names.take(j + 1 as int).last() == names[j as int]);
            if j == 0 {
                assert(spec_file_list(names.take(0)) =~= Seq::<char>::empty());
                assert(base + spec_file_list(names.take(0)) =~= base);
            }
        }
        if j > 0 {
            out.append(", \"");
        } else {
            out.append("\"");
        }
        push_escaped(out, file_names[j].as_str());
        out.append("\"");
        proof {
            if j == 0 {
                assert(out@ =~= base + spec_file_list(names.take(1)));
            } else {
                assert(out@ =~= base + spec_file_list(names.take(j + 1 as int)));
            }
        }
        j = j + 1;
    }
    proof {
        assert(names.take(file_names.len() as int) =~= names);
    }
}

/// Appends one application's block.
fn push_block(out: &mut String, app: &App)
    ensures
        final(out)@ == old(out)@ + spec_block(app@),
{
    out.append("[[items]]\nname = \"");
    push_escaped(out, app.name.as_str());
    out.append("\"\nconfig_path = \"");
    push_escaped(out, app.config_path.as_str());
    out.append("\"\nfile_names = [");
    push_file_list(out, &app.file_names);
    out.append("]\n");
    proof {
        assert(out@ =~= old(out)@ + spec_block(app@));
    }
}

/// Writes the registry out in its canonical document form; `None` when
/// some entry cannot be carried (an empty name, or a delimiter inside a
/// field).
pub fn encode_registry(apps: &Apps) -> (r: Option<String>)
    ensures
        r is Some <==> apps_encodable(apps@),
        r matches Some(s) ==> s@ == spec_encode(apps@),
{
    let mut i: usize = 0;
    while i < apps.items.len()
        invariant
            i <= apps.items.len(),
            forall|k: int| 0 <= k < i ==> app_encodable(#[trigger] apps@[k]),
        decreases apps.items.len() - i,
    {
        let app = &apps.items[i];
        if app.name.as_str().unicode_len() == 0 || !is_field_ok(app.name.as_str())
            || !is_field_ok(app.config_path.as_str()) {
            proof {
                assert(!app_encodable(apps@[i as int]));
                assert(!apps_encodable(apps@));
            }
            return None;
        }
        let mut j: usize = 0;
        while j < app.file_names.len()
            invariant
                i < apps.items.len(),
                app == &apps.items[i as int],
                j <= app.file_names.len(),
                forall|k: int| 0 <= k < j ==> field_ok(#[trigger] app@.file_names[k]),
            decreases app.file_names.len() - j,
        {
            if !is_field_ok(app.file_names[j].as_str()) {
                proof {
                    assert(!field_ok(app@.file_names[j as int]));
                    assert(!app_encodable(apps@[i as int]));
                    assert(!apps_encodable(apps@));
                }
                return None;
            }
            j = j + 1;
        }
        proof {
            assert(app_encodable(apps@[i as int]));
        }
        i = i + 1;
    }
    proof {
        assert(apps_encodable(apps@));
    }
    if apps.items.len() == 0 {
        proof {
            assert(apps@.len() == 0);
        }
        return Some(String::from_str("items = []\n"));
    }
    let mut out = String::new();
    let mut i: usize = 0;
    while i < apps.items.len()
        invariant
            i <= apps.items.len(),
            out@ == spec_blocks(apps@.take(i as int)),
        decreases apps.items.len() - i,
    {
        proof {
            assert(apps@.take(i + 1 as int).drop_last() =~= apps@.take(i as int));
            assert(apps@.take(i + 1 as int).last() == apps@[i as int]);
        }
        push_block(&mut out, &apps.items[i]);
        i = i + 1;
    }
    proof {
        assert(apps@.take(apps.items.len() as int) =~= apps@);
    }
    Some(out)
}

/// Whether the two strings hold the same characters.
pub(crate) fn str_eq(a: &str, b: &str) -> (r: bool)
    ensures
        r == (a@ == b@),
{
    let sa = String::from_str(a);
    let sb = String::from_str(b);
    sa == sb
}



/// Whether the document carries the pattern verbatim at position `p`.
fn starts_with_at(doc: &str, p: usize, pat: &str) -> (r: bool)
    ensures
        r == (p + pat@.len() <= doc@.len() && doc@.subrange(
            p as int,
            p as int + pat@.len() as int,
        ) == pat@),
{
    let n = doc.unicode_len();
    let l = pat.unicode_len();
    if p > n || n - p < l {
        return false;
    }
    let sub = doc.substring_char(p, p + l);
    str_eq(sub, pat)
}

/// Splitting text off the document at a position: the piece stands there
/// verbatim and the remainder follows it.
proof fn lemma_skip_parts(doc: Seq<char>, p: int, x: Seq<char>, rest: Seq<char>)
    requires
        0 <= p <= doc.len(),
        doc.skip(p) == x + rest,
    ensures
        doc.len() == p + x.len() + rest.len(),
        doc.subrange(p, p + x.len() as int) == x,
        0 <= p + x.len() <= doc.len(),
        doc.skip(p + x.len() as int) == rest,
        forall|j: int| 0 <= j < x.len() ==> doc[p + j] == x[j],
        x.len() > 0 ==> doc[p] == x[0],
{
    assert(doc.skip(p).len() == doc.len() - p);
    assert((x + rest).len() == x.len() + rest.len());
    assert forall|j: int| 0 <= j < x.len() implies doc[p + j] == x[j] by {
        assert(doc.skip(p)[j] == doc[p + j]);
        assert((x + rest)[j] == x[j]);
    }
    assert(doc.subrange(p, p + x.len() as int) =~= x);
    assert(doc.skip(p + x.len() as int) =~= rest) by {
        assert forall|j: int| 0 <= j < rest.len() implies doc.skip(p + x.len() as int)[j]
            == rest[j] by {
            assert(doc.skip(p)[x.len() + j] == (x + rest)[x.len() + j]);
            assert(doc.skip(p + x.len() as int)[j] == doc[p + x.len() + j]);
            assert(doc.skip(p)[x.len() + j] == doc[p + x.len() + j]);
        }
    }
}

/// The document carries, from `p` on, the escaped field and its closing
/// quote, and then `tail`.
spec fn field_at(doc: Seq<char>, p: int, f: Seq<char>, tail: Seq<char>) -> bool {
    &&& 0 <= p <= doc.len()
    &&& doc.skip(p) == (esc(f) + seq!['"']) + tail
}

/// Reads one escaped field up to its unescaped closing quote, undoing the
/// escapes; the position returned stands right after that quote. On a
/// document that carries a field here, the field is read back exactly.
fn parse_field(
    doc: &str,
    p0: usize,
    Ghost(wf): Ghost<Seq<char>>,
    Ghost(wtail): Ghost<Seq<char>>,
) -> (r: Option<(String, usize)>)
    ensures
        r matches Some(pair) ==> p0 < pair.1 <= doc@.len(),
        field_at(doc@, p0 as int, wf, wtail) ==> (r matches Some(pair) && pair.0@ == wf && pair.1
            == doc@.len() - wtail.len()),
{
    let ghost hyp = field_at(doc@, p0 as int, wf, wtail);
    let n = doc.unicode_len();
    if p0 > n {
        return None;
    }
    let mut acc = String::new();
    let ghost mut k: int = 0;
    let mut p: usize = p0;
    proof {
        if hyp {
            assert(acc@ =~= wf.take(0));
            assert(wf.skip(0) =~= wf);
        }
    }
    loop
        invariant
            n == doc@.len(),
            p0 <= p <= n,
            hyp == field_at(doc@, p0 as int, wf, wtail),
            hyp ==> 0 <= k <= wf.len(),
            hyp ==> acc@ == wf.take(k),
            hyp ==> field_at(doc@, p as int, wf.skip(k), wtail),
        decreases n - p,
    {
        let ghost rem = wf.skip(k);
        proof {
            if hyp {
                if rem.len() == 0 {
                    assert(esc(rem) =~= Seq::<char>::empty());
                    assert((esc(rem) + seq!['"']) + wtail =~= seq!['"'] + wtail);
                    lemma_skip_parts(doc@, p as int, seq!['"'], wtail);
                } else {
                    lemma_esc_front(rem);
                    assert(doc@.skip(p as int) =~= escc(rem[0]) + ((esc(rem.drop_first())
                        + seq!['"']) + wtail));
                    lemma_skip_parts(
                        doc@,
                        p as int,
                        escc(rem[0]),
                        (esc(rem.drop_first()) + seq!['"']) + wtail,
                    );
                }
            }
        }
        if p >= n {
            return None;
        }
        let c = doc.get_char(p);
        if c == '"' {
            proof {
                if hyp {
                    assert(rem.len() == 0) by {
                        if rem.len() > 0 {
                            assert(doc@[p as int] == escc(rem[0])[0]);
                            assert(escc(rem[0])[0] != '"');
                        }
                    }
                    assert(acc@ =~= wf);
                }
            }
            return Some((acc, p + 1));
        }
        if c == '\\' {
            proof {
                if hyp {
                    assert(rem.len() > 0) by {
                        if rem.len() == 0 {
                            assert(doc@[p as int] == '"');
                        }
                    }
                    assert(rem[0] == '"' || rem[0] == '\\') by {
                        if !(rem[0] == '"' || rem[0] == '\\') {
                            assert(escc(rem[0]) =~= seq![rem[0]]);
                            assert(doc@[p as int] == rem[0]);
                        }
                    }
                    assert(escc(rem[0]) =~= seq!['\\', rem[0]]);
                    assert(doc@[p + 1 as int] == rem[0]);
                }
            }
            if p + 1 >= n {
                return None;
            }
            let c2 = doc.get_char(p + 1);
            if c2 != '"' && c2 != '\\' {
                return None;
            }
            acc.append(doc.substring_char(p + 1, p + 2));
            proof {
                if hyp {
                    assert(doc@.subrange(p + 1 as int, p + 2 as int) =~= seq![
                        doc@[p + 1 as int],
                    ]);
                    assert(acc@ =~= wf.take(k + 1));
                    k = k + 1;
                    assert(wf.skip(k) =~= rem.drop_first());
                }
            }
            p = p + 2;
        } else {
            proof {
                if hyp {
                    assert(rem.len() > 0) by {
                        if rem.len() == 0 {
                            assert(doc@[p as int] == '"');
                        }
                    }
                    assert(!(rem[0] == '"' || rem[0] == '\\')) by {
                        if rem[0] == '"' || rem[0] == '\\' {
                            assert(escc(rem[0]) =~= seq!['\\', rem[0]]);
                            assert(doc@[p as int] == '\\');
                        }
                    }
                    assert(escc(rem[0]) =~= seq![rem[0]]);
                    assert(doc@[p as int] == rem[0]);
                }
            }
            acc.append(doc.substring_char(p, p + 1));
            proof {
                if hyp {
                    assert(doc@.subrange(p as int, p + 1 as int) =~= seq![doc@[p as int]]);
                    assert(acc@ =~= wf.take(k + 1));
                    k = k + 1;
                    assert(wf.skip(k) =~= rem.drop_first());
                }
            }
            p = p + 1;
        }
    }
}

/// The document carries, from `p` on, the written-out list of `names`
/// closed by its bracket, and then `tail`.
spec fn list_at(doc: Seq<char>, p: int, names: Seq<Seq<char>>, tail: Seq<char>) -> bool {
    &&& 0 <= p <= doc.len()
    &&& doc.skip(p) == spec_file_list(names) + "]\n"@ + tail
}

/// Reads the quoted file-name list and the closing bracket; the position
/// returned stands right after the list's closing newline. On a document
/// that carries a written-out list here, the names are read back exactly.
fn parse_file_list(
    doc: &str,
    p0: usize,
    Ghost(w): Ghost<Seq<Seq<char>>>,
    Ghost(wtail): Ghost<Seq<char>>,
) -> (r: Option<(Vec<String>, usize)>)
    ensures
        r matches Some(pair) ==> p0 < pair.1 <= doc@.len(),
        list_at(doc@, p0 as int, w, wtail) ==> (r matches Some(pair) && pair.0.deep_view() == w
            && pair.1 == doc@.len() - wtail.len()),
{
    proof {
        reveal_strlit("]\n");
        reveal_strlit("\"");
        reveal_strlit(", ");
    }
    let ghost hyp = list_at(doc@, p0 as int, w, wtail);
    let n = doc.unicode_len();
    let mut names: Vec<String> = Vec::new();
    if starts_with_at(doc, p0, "]\n") {
        proof {
            if hyp {
                if w.len() > 0 {
                    lemma_file_list_first_char(w);
                    assert(doc@.skip(p0 as int) =~= spec_file_list(w) + ("]\n"@ + wtail));
                    lemma_skip_parts(
                        doc@,
                        p0 as int,
                        spec_file_list(w),
                        "]\n"@ + wtail,
                    );
                    assert(doc@[p0 as int] == '"');
                    assert(doc@.subrange(p0 as int, p0 + 2 as int)[0] == ']');
                }
                assert(spec_file_list(w) + "]\n"@ + wtail =~= "]\n"@ + wtail);
                lemma_skip_parts(doc@, p0 as int, "]\n"@, wtail);
                assert(names.deep_view() =~= w);
            }
        }
        return Some((names, p0 + 2));
    }
    proof {
        if hyp {
            if w.len() == 0 {
                assert(spec_file_list(w) + "]\n"@ + wtail =~= "]\n"@ + wtail);
                lemma_skip_parts(doc@, p0 as int, "]\n"@, wtail);
                assert(doc@.subrange(p0 as int, p0 + 2 as int) =~= "]\n"@);
            }
            assert(w.len() > 0);
            assert(doc@.skip(p0 as int) =~= spec_file_list(w) + ("]\n"@ + wtail));
            lemma_skip_parts(doc@, p0 as int, spec_file_list(w), "]\n"@ + wtail);
            lemma_file_list_first_char(w);
            assert(names.deep_view() =~= w.take(0));
            assert(w.skip(0) =~= w);
            assert(p0 < n);
        }
    }
    if p0 >= n {
        return None;
    }
    let mut p: usize = p0;
    loop
        invariant
            n == doc@.len(),
            p0 <= p <= n,
            hyp == list_at(doc@, p0 as int, w, wtail),
            hyp ==> names.deep_view() == w.take(names.len() as int),
            hyp ==> names.len() < w.len(),
            hyp ==> list_at(doc@, p as int, w.skip(names.len() as int), wtail),
        decreases n - p,
    {
        proof {
            reveal_strlit("]\n");
            reveal_strlit("\"");
            reveal_strlit(", ");
        }
        let ghost i = names.len() as int;
        let ghost rem = w.skip(i);
        let ghost r_rest = if rem.len() == 1 {
            "]\n"@ + wtail
        } else {
            ", "@ + (spec_file_list(rem.drop_first()) + "]\n"@ + wtail)
        };
        proof {
            if hyp {
                lemma_file_list_front(rem);
                assert(doc@.skip(p as int) == (spec_file_list(rem) + "]\n"@) + wtail);
                assert(doc@.skip(p as int) =~= seq!['"'] + ((esc(rem[0]) + seq!['"']) + r_rest));
                lemma_skip_parts(doc@, p as int, seq!['"'], (esc(rem[0]) + seq!['"']) + r_rest);
                assert(doc@.subrange(p as int, p + 1 as int) =~= "\""@);
                lemma_skip_parts(doc@, p + 1 as int, esc(rem[0]) + seq!['"'], r_rest);
            }
        }
        if !starts_with_at(doc, p, "\"") {
            return None;
        }
        let (name, q2) = match parse_field(doc, p + 1, Ghost(rem[0]), Ghost(r_rest)) {
            Some(pair) => pair,
            None => {
                return None;
            },
        };
        proof {
            if hyp {
                assert(q2 as int == doc@.len() - r_rest.len());
                assert(doc@.skip(q2 as int) == r_rest);
                assert(name@ == rem[0]);
            }
        }
        names.push(name);
        proof {
            if hyp {
                assert(rem[0] == w[i]);
                assert(names.deep_view() =~= w.take(i + 1));
            }
        }
        if starts_with_at(doc, q2, ", ") {
            proof {
                if hyp {
                    assert(rem.len() > 1) by {
                        if rem.len() == 1 {
                            lemma_skip_parts(doc@, q2 as int, "]\n"@, wtail);
                            assert(doc@.subrange(q2 as int, q2 + 2 as int)[0] == ']');
                            assert(", "@[0] == ',');
                        }
                    }
                    lemma_skip_parts(
                        doc@,
                        q2 as int,
                        ", "@,
                        spec_file_list(rem.drop_first()) + "]\n"@ + wtail,
                    );
                    assert(rem.drop_first() =~= w.skip(i + 1));
                }
            }
            p = q2 + 2;
        } else if starts_with_at(doc, q2, "]\n") {
            proof {
                if hyp {
                    assert(rem.len() == 1) by {
                        if rem.len() > 1 {
                            lemma_skip_parts(
                                doc@,
                                q2 as int,
                                ", "@,
                                spec_file_list(rem.drop_first()) + "]\n"@ + wtail,
                            );
                            assert(doc@.subrange(q2 as int, q2 + 2 as int)[0] == ',');
                            assert("]\n"@[0] == ']');
                        }
                    }
                    lemma_skip_parts(doc@, q2 as int, "]\n"@, wtail);
                    assert(names.deep_view() =~= w);
                }
            }
            return Some((names, q2 + 2));
        } else {
            proof {
                if hyp {
                    if rem.len() == 1 {
                        lemma_skip_parts(doc@, q2 as int, "]\n"@, wtail);
                        assert(doc@.subrange(q2 as int, q2 + 2 as int) =~= "]\n"@);
                    } else {
                        lemma_skip_parts(
                            doc@,
                            q2 as int,
                            ", "@,
                            spec_file_list(rem.drop_first()) + "]\n"@ + wtail,
                        );
                        assert(doc@.subrange(q2 as int, q2 + 2 as int) =~= ", "@);
                    }
                }
            }
            return None;
        }
    }
}

/// The document carries, from `p` on, the block of `a`, and then `tail`.
spec fn block_at(doc: Seq<char>, p: int, a: AppView, tail: Seq<char>) -> bool {
    &&& 0 <= p <= doc.len()
    &&& doc.skip(p) == spec_block(a) + tail
}

/// Reads one application block; the position returned stands right after
/// the block's last newline. On a document that carries a block here, the
/// application is read back exactly.
fn parse_block(
    doc: &str,
    p0: usize,
    Ghost(wa): Ghost<AppView>,
    Ghost(wtail): Ghost<Seq<char>>,
) -> (r: Option<(App, usize)>)
    ensures
        r matches Some(pair) ==> p0 < pair.1 <= doc@.len(),
        block_at(doc@, p0 as int, wa, wtail) ==> (r matches Some(pair) && pair.0@ == wa && pair.1
            == doc@.len() - wtail.len()),
{
    proof {
        reveal_strlit("[[items]]\nname = \"");
        reveal_strlit("\"\nconfig_path = \"");
        reveal_strlit("\"\nfile_names = [");
        reveal_strlit("\nconfig_path = \"");
        reveal_strlit("\nfile_names = [");
        reveal_strlit("]\n");
        reveal_strlit("\"");
    }
    let ghost hyp = block_at(doc@, p0 as int, wa, wtail);
    let n = doc.unicode_len();
    let ghost rest_name = "\nconfig_path = \""@ + ((esc(wa.config_path) + seq!['"']) + (
        "\nfile_names = ["@ + ((spec_file_list(wa.file_names) + "]\n"@) + wtail)));
    let ghost rest_config = "\nfile_names = ["@ + ((spec_file_list(wa.file_names) + "]\n"@)
        + wtail);
    proof {
        if hyp {
            assert(doc@.skip(p0 as int) =~= "[[items]]\nname = \""@ + ((esc(wa.name)
                + seq!['"']) + rest_name));
            lemma_skip_parts(
                doc@,
                p0 as int,
                "[[items]]\nname = \""@,
                (esc(wa.name) + seq!['"']) + rest_name,
            );
        }
    }
    if !starts_with_at(doc, p0, "[[items]]\nname = \"") {
        return None;
    }
    let (name, q1) = match parse_field(doc, p0 + 18, Ghost(wa.name), Ghost(rest_name)) {
        Some(pair) => pair,
        None => {
            return None;
        },
    };
    proof {
        if hyp {
            lemma_skip_parts(doc@, p0 + 18 as int, esc(wa.name) + seq!['"'], rest_name);
            assert(q1 as int == doc@.len() - rest_name.len());
            assert(doc@.skip(q1 as int) == rest_name);
            assert(rest_name =~= "\nconfig_path = \""@ + ((esc(wa.config_path) + seq!['"'])
                + rest_config));
            lemma_skip_parts(
                doc@,
                q1 as int,
                "\nconfig_path = \""@,
                (esc(wa.config_path) + seq!['"']) + rest_config,
            );
        }
    }
    if !starts_with_at(doc, q1, "\nconfig_path = \"") {
        return None;
    }
    let (config_path, q2) = match parse_field(
        doc,
        q1 + 16,
        Ghost(wa.config_path),
        Ghost(rest_config),
    ) {
        Some(pair) => pair,
        None => {
            return None;
        },
    };
    proof {
        if hyp {
            lemma_skip_parts(doc@, q1 + 16 as int, esc(wa.config_path) + seq!['"'], rest_config);
            assert(q2 as int == doc@.len() - rest_config.len());
            assert(doc@.skip(q2 as int) == rest_config);
            lemma_skip_parts(
                doc@,
                q2 as int,
                "\nfile_names = ["@,
                (spec_file_list(wa.file_names) + "]\n"@) + wtail,
            );
        }
    }
    if !starts_with_at(doc, q2, "\nfile_names = [") {
        return None;
    }
    proof {
        if hyp {
            assert((spec_file_list(wa.file_names) + "]\n"@) + wtail =~= spec_file_list(
                wa.file_names,
            ) + "]\n"@ + wtail);
            assert(list_at(doc@, q2 + 15 as int, wa.file_names, wtail));
        }
    }
    match parse_file_list(doc, q2 + 15, Ghost(wa.file_names), Ghost(wtail)) {
        Some((file_names, after)) => {
            let app = App { name, config_path, file_names };
            proof {
                if hyp {
                    assert(app@ =~= wa);
                }
            }
            Some((app, after))
        },
        None => None,
    }
}

/// Reads the whole document strictly; `None` on any deviation from the
/// canonical form. A document that is the written-out form of a registry
/// is read back exactly.
fn parse_strict(doc: &str, Ghost(ws): Ghost<Seq<AppView>>) -> (r: Option<Apps>)
    ensures
        (apps_encodable(ws) && doc@ == spec_blocks(ws)) ==> (r matches Some(apps) && apps@ == ws),
{
    let ghost hyp = apps_encodable(ws) && doc@ == spec_blocks(ws);
    let n = doc.unicode_len();
    let mut items: Vec<App> = Vec::new();
    let mut p: usize = 0;
    proof {
        if hyp {
            assert(items.deep_view() =~= ws.take(0));
            assert(ws.skip(0) =~= ws);
            assert(doc@.skip(0) =~= doc@);
        }
    }
    while p < n
        invariant
            n == doc@.len(),
            p <= n,
            hyp == (apps_encodable(ws) && doc@ == spec_blocks(ws)),
            hyp ==> items.deep_view() == ws.take(items.len() as int),
            hyp ==> items.len() <= ws.len(),
            hyp ==> doc@.skip(p as int) == spec_blocks(ws.skip(items.len() as int)),
        decreases n - p,
    {
        let ghost k = items.len() as int;
        let ghost remaining = ws.skip(k);
        proof {
            if hyp {
                assert(remaining.len() > 0) by {
                    if remaining.len() == 0 {
                        assert(spec_blocks(remaining) =~= Seq::<char>::empty());
                        assert(doc@.skip(p as int).len() == n - p);
                    }
                }
                lemma_blocks_front(remaining);
                assert(remaining[0] == ws[k]);
                assert(remaining.drop_first() =~= ws.skip(k + 1));
                assert(app_encodable(ws[k]));
                lemma_skip_parts(
                    doc@,
                    p as int,
                    spec_block(ws[k]),
                    spec_blocks(ws.skip(k + 1)),
                );
                assert(block_at(doc@, p as int, ws[k], spec_blocks(ws.skip(k + 1))));
            }
        }
        match parse_block(doc, p, Ghost(ws[k]), Ghost(spec_blocks(ws.skip(k + 1)))) {
            Some((app, after)) => {
                let ghost items_pre = items.deep_view();
                items.push(app);
                proof {
                    if hyp {
                        assert(items.deep_view() =~= ws.take(k + 1));
                    }
                }
                p = after;
            },
            None => {
                return None;
            },
        }
    }
    proof {
        if hyp {
            assert(ws.skip(items.len() as int).len() == 0) by {
                if ws.skip(items.len() as int).len() > 0 {
                    lemma_blocks_first_char(ws.skip(items.len() as int));
                    assert(doc@.skip(p as int).len() == 0);
                }
            }
            assert(items.deep_view() =~= ws);
        }
    }
    let apps = Apps { items };
    Some(apps)
}

/// Reads a registry document. The result is exactly the registry whose
/// canonical encoding the document is; an empty document, the written-out
/// empty list, and any text in no canonical form all stand for the empty
/// registry.
pub fn decode_registry(doc: &str) -> (r: Apps)
    ensures
        apps_encodable(r@),
        doc@.len() == 0 ==> r@ == Seq::<AppView>::empty(),
        doc@ == "items = []\n"@ ==> r@.len() == 0,
        r@.len() > 0 ==> doc@ == spec_encode(r@),
        forall|items: Seq<AppView>|
            apps_encodable(items) && doc@ == spec_encode(items) ==> r@ == items,
{
    proof {
        reveal_strlit("items = []\n");
    }
    let ghost has_canonical = exists|items: Seq<AppView>|
        apps_encodable(items) && doc@ == spec_encode(items);
    let ghost wit = choose|items: Seq<AppView>|
        apps_encodable(items) && doc@ == spec_encode(items);
    let empty = Apps { items: Vec::new() };
    proof {
        assert(empty@ =~= Seq::<AppView>::empty());
    }
    if doc.unicode_len() == 0 {
        proof {
            assert forall|items: Seq<AppView>|
                apps_encodable(items) && doc@ == spec_encode(items) implies empty@ == items by {
                if items.len() > 0 {
                    lemma_blocks_first_char(items);
                }
            }
        }
        return empty;
    }
    if str_eq(doc, "items = []\n") {
        proof {
            assert forall|items: Seq<AppView>|
                apps_encodable(items) && doc@ == spec_encode(items) implies empty@ == items by {
                if items.len() > 0 {
                    lemma_blocks_first_char(items);
                    assert(doc@[0] == '[');
                    assert(doc@[0] == 'i');
                }
            }
        }
        return empty;
    }
    proof {
        if has_canonical {
            assert(apps_encodable(wit) && doc@ == spec_encode(wit));
            assert(wit.len() > 0) by {
                if wit.len() == 0 {
                    assert(doc@ == "items = []\n"@);
                }
            }
        }
    }
    match parse_strict(doc, Ghost(wit)) {
        None => {
            proof {
                assert(!has_canonical);
                assert forall|items: Seq<AppView>|
                    apps_encodable(items) && doc@ == spec_encode(items) implies empty@
                    == items by {}
            }
            empty
        },
        Some(apps) => {
            proof {
                if has_canonical {
                    assert(apps@ == wit);
                }
            }
            match encode_registry(&apps) {
                Some(s) => {
                    if str_eq(s.as_str(), doc) {
                        if apps.items.len() == 0 {
                            proof {
                                assert(apps@.len() == 0);
                                assert forall|items: Seq<AppView>|
                                    apps_encodable(items) && doc@ == spec_encode(
                                        items,
                                    ) implies empty@ == items by {
                                    lemma_encode_injective(apps@, items);
                                }
                            }
                            return empty;
                        }
                        proof {
                            assert(apps@.len() > 0);
                            assert forall|items: Seq<AppView>|
                                apps_encodable(items) && doc@ == spec_encode(
                                    items,
                                ) implies apps@ == items by {
                                lemma_encode_injective(apps@, items);
                            }
                        }
                        apps
                    } else {
                        proof {
                            assert(!has_canonical) by {
                                if has_canonical {
                                    assert(s@ == spec_encode(apps@));
                                    assert(apps@ == wit);
                                }
                            }
                            assert forall|items: Seq<AppView>|
                                apps_encodable(items) && doc@ == spec_encode(
                                    items,
                                ) implies empty@ == items by {}
                        }
                        empty
                    }
                },
                None => {
                    proof {
                        assert(!has_canonical) by {
                            if has_canonical {
                                assert(apps@ == wit);
                                assert(apps_encodable(apps@));
                            }
                        }
                        assert forall|items: Seq<AppView>|
                            apps_encodable(items) && doc@ == spec_encode(items) implies empty@
                            == items by {}
                    }
                    empty
                },
            }
        },
    }
}

impl Apps {
    /// Loads the registry from the document's content when the backing
    /// file exists, and from nothing when it does not. A missing, empty
    /// or non-canonical document yields the empty registry, never an
    /// error.
    pub fn from_document(doc: Option<&str>) -> (r: Apps)
        ensures
            apps_encodable(r@),
            doc is None ==> r@ == Seq::<AppView>::empty(),
            doc matches Some(d) ==> ((d@.len() == 0 ==> r@ == Seq::<AppView>::empty()) && (r@.len()
                > 0 ==> d@ == spec_encode(r@)) && (forall|items: Seq<AppView>|
                apps_encodable(items) && d@ == spec_encode(items) ==> r@ == items)),
    {
        match doc {
            None => {
                let empty = Apps { items: Vec::new() };
                proof {
                    assert(empty@ =~= Seq::<AppView>::empty());
                }
                empty
            },
            Some(d) => decode_registry(d),
        }
    }
}

} // verus!
