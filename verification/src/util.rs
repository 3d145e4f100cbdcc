//! Functions shared by the interpreter and its command line: rendering a
//! syntax tree as text, and telling plain LISP sources by their name.

use vstd::prelude::*;
use crate::reader::{AstContent, AstNode};
use crate::reader_model::{AstModel, NodeModel};
use crate::text::{int_model, int_to_string};

verus! {

/// What `{:?}` writes for a string: the string quoted, with escapes.
pub uninterp spec fn debug_quoted(s: Seq<char>) -> Seq<char>;

/// Formats the string with `{:?}` (its `Debug` impl). Claims only that the
/// result is `debug_quoted` of the string; the escaping rules are std's.
#[verifier::external_body]
pub(crate) fn debug_str(s: &String) -> (r: String)
    ensures
        r@ == debug_quoted(s@),
{
    format!("{:?}", s)
}

/// The text of a syntax tree: `nil`, `true`, quoted strings, decimal
/// integers, `'` before a quoted node, and groups in round brackets with
/// `, ` between their items.
pub open spec fn ast_text(n: NodeModel) -> Seq<char>
    decreases n, 0nat,
{
    match n.content {
        AstModel::Nil => seq!['n', 'i', 'l'],
        AstModel::True => seq!['t', 'r', 'u', 'e'],
        AstModel::Str(s) => debug_quoted(s),
        AstModel::Int(i) => int_model(i as int),
        AstModel::Quote(b) => seq!['\''] + ast_text(*b),
        AstModel::Group(v) => seq!['('] + items_text(v, v.len()) + seq![')'],
    }
}

/// The text of the first `k` items of a group, separated by `, `.
pub open spec fn items_text(v: Seq<NodeModel>, k: nat) -> Seq<char>
    decreases v, k,
{
    if k == 0 || k > v.len() {
        Seq::empty()
    } else if k == 1 {
        ast_text(v[0])
    } else {
        items_text(v, (k - 1) as nat) + seq![',', ' '] + ast_text(v[k - 1])
    }
}

fn append_text(s: &mut String, t: &String)
    ensures
        final(s)@ == old(s)@ + t@,
{
    s.append(t.as_str());
}

/// Renders the tree as text.
pub fn ast_to_string(node: &AstNode) -> (r: String)
    ensures
        r@ == ast_text(node.model()),
    decreases node,
{
    match &node.content {
        AstContent::Nil => {
            let r = "nil".to_owned();
            proof {
                reveal_strlit("nil");
            }
            assert(r@ =~= seq!['n', 'i', 'l']);
            r
        },
        AstContent::True => {
            let r = "true".to_owned();
            proof {
                reveal_strlit("true");
            }
            assert(r@ =~= seq!['t', 'r', 'u', 'e']);
            r
        },
        AstContent::String(s) => debug_str(s),
        AstContent::Int(i) => int_to_string(*i),
        AstContent::Quote(b) => {
            let inner = ast_to_string(b);
            let mut r = String::new();
            crate::text::push_char(&mut r, '\'');
            append_text(&mut r, &inner);
            assert(r@ =~= seq!['\''] + ast_text(b.model()));
            r
        },
        AstContent::Group(v) => {
            let ghost vm = Seq::new(
                v@.len(),
                |i: int|
                    if 0 <= i < v@.len() {
                        v@[i].model()
                    } else {
                        crate::reader_model::placeholder_model()
                    },
            );
            assert(node.model().content->Group_0 =~= vm);
            let mut r = String::new();
            crate::text::push_char(&mut r, '(');
            let mut i: usize = 0;
            while i < v.len()
                invariant
                    i <= v@.len(),
                    node.content == AstContent::Group(*v),
                    vm.len() == v@.len(),
                    forall|j: int| 0 <= j < v@.len() ==> #[trigger] vm[j] == v@[j].model(),
                    r@ == seq!['('] + items_text(vm, i as nat),
                decreases v@.len() - i,
            {
                if i > 0 {
                    crate::text::push_char(&mut r, ',');
                    crate::text::push_char(&mut r, ' ');
                }
                proof {
                    assert(decreases_to!(node => node.content));
                    assert(decreases_to!(node.content => node.content->Group_0));
                    assert(decreases_to!(node.content->Group_0 => node.content->Group_0@));
                    assert(decreases_to!(node.content->Group_0@ => v@[i as int]));
                }
                let item = ast_to_string(&v[i]);
                append_text(&mut r, &item);
                proof {
                    assert(vm[i as int] == v@[i as int].model());
                    if i == 0 {
                        assert(items_text(vm, 1) == ast_text(vm[0]));
                    } else {
                        assert(items_text(vm, (i + 1) as nat) == items_text(vm, i as nat) + seq![',', ' '] + ast_text(vm[i as int]));
                    }
                }
                assert(r@ =~= seq!['('] + items_text(vm, (i + 1) as nat));
                i = i + 1;
            }
            crate::text::push_char(&mut r, ')');
            r
        },
    }
}

/// The two trees are the same once every position is left out.
pub open spec fn same_shape(a: NodeModel, b: NodeModel) -> bool
    decreases a, 0nat,
{
    match (a.content, b.content) {
        (AstModel::Nil, AstModel::Nil) => true,
        (AstModel::True, AstModel::True) => true,
        (AstModel::Str(x), AstModel::Str(y)) => x == y,
        (AstModel::Int(x), AstModel::Int(y)) => x == y,
        (AstModel::Quote(x), AstModel::Quote(y)) => same_shape(*x, *y),
        (AstModel::Group(v), AstModel::Group(w)) => v.len() == w.len() && same_items(v, w, v.len()),
        _ => false,
    }
}

/// The first `k` items of the two groups are the same once every position
/// is left out.
pub open spec fn same_items(v: Seq<NodeModel>, w: Seq<NodeModel>, k: nat) -> bool
    decreases v, k,
{
    if k == 0 || k > v.len() {
        true
    } else {
        same_items(v, w, (k - 1) as nat) && same_shape(v[k - 1], w[k - 1])
    }
}

/// The text of a syntax tree does not depend on where its parts were read:
/// two trees that differ only in their positions render alike.
pub proof fn law_text_ignores_positions(a: NodeModel, b: NodeModel)
    requires
        same_shape(a, b),
    ensures
        ast_text(a) == ast_text(b),
    decreases a, 0nat,
{
    match (a.content, b.content) {
        (AstModel::Quote(x), AstModel::Quote(y)) => {
            law_text_ignores_positions(*x, *y);
        },
        (AstModel::Group(v), AstModel::Group(w)) => {
            lemma_items_text_ignore_positions(v, w, v.len());
        },
        _ => {},
    }
}

/// The text of the first `k` items of two groups that differ only in their
/// positions is the same.
proof fn lemma_items_text_ignore_positions(v: Seq<NodeModel>, w: Seq<NodeModel>, k: nat)
    requires
        v.len() == w.len(),
        same_items(v, w, k),
    ensures
        items_text(v, k) == items_text(w, k),
    decreases v, k,
{
    if k == 0 || k > v.len() {
    } else {
        lemma_items_text_ignore_positions(v, w, (k - 1) as nat);
        law_text_ignores_positions(v[k - 1], w[k - 1]);
    }
}

/// Whether the file name marks a plain LISP source: it ends in `.ls0`.
pub fn is_lisp_filename(s: &str) -> (r: bool)
    ensures
        r == (s@.len() >= 4 && s@.subrange(s@.len() - 4, s@.len() as int) == seq!['.', 'l', 's', '0']),
{
    let n = s.unicode_len();
    if n < 4 {
        return false;
    }
    let a = s.get_char(n - 4);
    let b = s.get_char(n - 3);
    let c = s.get_char(n - 2);
    let d = s.get_char(n - 1);
    let r = a == '.' && b == 'l' && c == 's' && d == '0';
    let ghost tail = s@.subrange(s@.len() - 4, s@.len() as int);
    assert(r ==> tail =~= seq!['.', 'l', 's', '0']);
    assert(tail == seq!['.', 'l', 's', '0'] ==> tail[0] == '.' && tail[1] == 'l' && tail[2] == 's' && tail[3] == '0');
    r
}

} // verus!
