//! The parser: from source text to the tree of instructions it denotes.

use vstd::prelude::*;
use vstd::slice::slice_subrange;

verus! {

/// The one way a source text can fail to parse.
#[derive(PartialEq, Eq, Debug)]
pub enum ParseError {
    /// A loop delimiter at `position` has no partner.
    UndelimitedJump { position: usize },
}

/// One instruction of a program; a loop owns the instructions of its body.
#[derive(Debug, PartialEq, Eq)]
pub enum Instruction {
    MoveLeft,
    MoveRight,
    Increment,
    Decrement,
    Output,
    Input,
    Loop(Vec<Instruction>),
}

/// The mathematical shape of an instruction: the same variants, with a loop
/// body held as a sequence.
pub enum Node {
    MoveLeft,
    MoveRight,
    Increment,
    Decrement,
    Output,
    Input,
    Loop(Seq<Node>),
}

impl View for Instruction {
    type V = Node;

    open spec fn view(&self) -> Node
        decreases self,
    {
        match self {
            Instruction::MoveLeft => Node::MoveLeft,
            Instruction::MoveRight => Node::MoveRight,
            Instruction::Increment => Node::Increment,
            Instruction::Decrement => Node::Decrement,
            Instruction::Output => Node::Output,
            Instruction::Input => Node::Input,
            // Every index that the sequence is asked for lies in the body.
            Instruction::Loop(body) => Node::Loop(
                Seq::new(body@.len(), |i: int| if 0 <= i < body@.len() { body@[i].view() } else { Node::Input }),
            ),
        }
    }
}

impl Clone for Instruction {
    fn clone(&self) -> (copy: Self)
        ensures
            copy@ == self@,
        decreases self,
    {
        match self {
            Instruction::MoveLeft => Instruction::MoveLeft,
            Instruction::MoveRight => Instruction::MoveRight,
            Instruction::Increment => Instruction::Increment,
            Instruction::Decrement => Instruction::Decrement,
            Instruction::Output => Instruction::Output,
            Instruction::Input => Instruction::Input,
            Instruction::Loop(body) => {
                let mut items: Vec<Instruction> = Vec::new();
                let mut i: usize = 0;
                while i < body.len()
                    invariant
                        *self == Instruction::Loop(*body),
                        i <= body.len(),
                        items.len() == i,
                        forall|k: int| 0 <= k < i ==> items[k]@ == body[k]@,
                    decreases body.len() - i,
                {
                    let item = &body[i];
                    assert(decreases_to!(*self => self->Loop_0));
                    assert(decreases_to!(*body => body[i as int]));
                    items.push(item.clone());
                    i += 1;
                }
                let copy = Instruction::Loop(items);
                assert(copy@ == self@) by {
                    assert(copy@->Loop_0 =~= self@->Loop_0);
                }
                copy
            },
        }
    }
}

/// The shapes of a sequence of instructions, in order.
pub open spec fn nodes(program: Seq<Instruction>) -> Seq<Node> {
    Seq::new(program.len(), |i: int| program[i]@)
}

/// `Instruction::Loop` views as a `Node::Loop` over the shapes of its body.
pub proof fn lemma_loop_view(body: Vec<Instruction>)
    ensures
        Instruction::Loop(body)@ == Node::Loop(nodes(body@)),
{
    assert(Instruction::Loop(body)@->Loop_0 =~= nodes(body@));
}

/// The instruction that a character stands for, if it stands for one by itself.
pub open spec fn leaf(c: char) -> Option<Node> {
    if c == '<' {
        Some(Node::MoveLeft)
    } else if c == '>' {
        Some(Node::MoveRight)
    } else if c == '+' {
        Some(Node::Increment)
    } else if c == '-' {
        Some(Node::Decrement)
    } else if c == '.' {
        Some(Node::Output)
    } else if c == ',' {
        Some(Node::Input)
    } else {
        None
    }
}

/// What a character adds to the nesting depth.
pub open spec fn delta(c: char) -> int {
    if c == '[' {
        1
    } else if c == ']' {
        -1
    } else {
        0
    }
}

/// The nesting depth after the first `n` characters of `s`: the loops opened
/// minus the loops closed.
pub open spec fn depth(s: Seq<char>, n: int) -> int
    decreases n,
{
    if n <= 0 {
        0
    } else {
        depth(s, n - 1) + delta(s[n - 1])
    }
}

/// Every close has an open before it and every open a close after it.
pub open spec fn balanced(s: Seq<char>) -> bool {
    &&& forall|n: int| 0 <= n <= s.len() ==> depth(s, n) >= 0
    &&& depth(s, s.len() as int) == 0
}

/// The delimiter at `p` stands outside every loop and has no partner: it is
/// a close, or an open after which the depth never comes back to zero.
pub open spec fn fault_at(s: Seq<char>, p: int) -> bool {
    &&& 0 <= p < s.len()
    &&& forall|n: int| 0 <= n <= p ==> depth(s, n) >= 0
    &&& depth(s, p) == 0
    &&& (s[p] == ']' || (s[p] == '[' && forall|n: int| p < n <= s.len() ==> depth(s, n) > 0))
}

/// The close at `j` ends the loop that the open at `i` begins: the depth is
/// back at its value before `i` for the first time after `j`.
pub open spec fn closes(s: Seq<char>, i: int, j: int) -> bool {
    &&& 0 <= i < j < s.len()
    &&& s[i] == '['
    &&& depth(s, j + 1) == depth(s, i)
    &&& forall|k: int| i < k <= j ==> depth(s, k) > depth(s, i)
}

/// The position of the close that ends the loop opened at `i`.
pub open spec fn close_of(s: Seq<char>, i: int) -> int {
    choose|j: int| closes(s, i, j)
}

/// The instructions that `s` holds from position `i` on, at the nesting
/// level of `i`. A loop stands for its whole span; a character that is no
/// symbol of the language stands for nothing.
pub open spec fn tree_from(s: Seq<char>, i: int) -> Seq<Node>
    decreases s.len(), s.len() - i,
{
    if i < 0 || i >= s.len() {
        Seq::empty()
    } else if s[i] == '[' {
        let j = close_of(s, i);
        if closes(s, i, j) {
            seq![Node::Loop(tree_from(s.subrange(i + 1, j), 0))] + tree_from(s, j + 1)
        } else {
            Seq::empty()
        }
    } else {
        match leaf(s[i]) {
            Some(node) => seq![node] + tree_from(s, i + 1),
            None => tree_from(s, i + 1),
        }
    }
}

/// The program that a balanced text denotes.
pub open spec fn tree_of(s: Seq<char>) -> Seq<Node> {
    tree_from(s, 0)
}

/// A loop has one close.
pub proof fn lemma_close_unique(s: Seq<char>, i: int, j: int)
    requires
        closes(s, i, j),
    ensures
        close_of(s, i) == j,
{
    let k = close_of(s, i);
    assert(closes(s, i, k));
    if k < j {
        assert(depth(s, k + 1) > depth(s, i));
    }
    if j < k {
        assert(depth(s, j + 1) > depth(s, i));
    }
}

/// Depths inside a slice are depths of the whole text, counted from where
/// the slice begins.
pub proof fn lemma_depth_subrange(s: Seq<char>, a: int, b: int, m: int)
    requires
        0 <= a <= b <= s.len(),
        0 <= m <= b - a,
    ensures
        depth(s.subrange(a, b), m) == depth(s, a + m) - depth(s, a),
    decreases m,
{
    if m > 0 {
        lemma_depth_subrange(s, a, b, m - 1);
        assert(s.subrange(a, b)[m - 1] == s[a + m - 1]);
    }
}

/// The text between an open and its close is balanced.
pub proof fn lemma_body_balanced(s: Seq<char>, i: int, j: int)
    requires
        closes(s, i, j),
    ensures
        balanced(s.subrange(i + 1, j)),
{
    let body = s.subrange(i + 1, j);
    assert(depth(s, i + 1) == depth(s, i) + 1);
    assert(depth(s, j + 1) == depth(s, j) + delta(s[j]));
    assert forall|n: int| 0 <= n <= body.len() implies depth(body, n) >= 0 by {
        lemma_depth_subrange(s, i + 1, j, n);
        assert(depth(s, i + 1 + n) > depth(s, i));
    }
    lemma_depth_subrange(s, i + 1, j, j - i - 1);
}

/// A text with a fault is not balanced.
pub proof fn lemma_fault_unbalanced(s: Seq<char>, p: int)
    requires
        fault_at(s, p),
    ensures
        !balanced(s),
{
    if s[p] == ']' {
        assert(depth(s, p + 1) == depth(s, p) + delta(s[p]));
        assert(depth(s, p + 1) < 0);
    } else {
        assert(depth(s, s.len() as int) > 0);
    }
}

/// A text has at most one fault.
pub proof fn law_fault_unique(s: Seq<char>, p: int, q: int)
    requires
        fault_at(s, p),
        fault_at(s, q),
    ensures
        p == q,
{
    if p < q {
        assert(depth(s, p + 1) == depth(s, p) + delta(s[p]));
        if s[p] == ']' {
            assert(depth(s, p + 1) >= 0);
        } else {
            assert(depth(s, q) > 0);
        }
    }
    if q < p {
        assert(depth(s, q + 1) == depth(s, q) + delta(s[q]));
        if s[q] == ']' {
            assert(depth(s, q + 1) >= 0);
        } else {
            assert(depth(s, p) > 0);
        }
    }
}

/// Where the depth is below zero somewhere, a close stands outside every
/// loop.
proof fn lemma_first_dip(s: Seq<char>, n: int)
    requires
        0 <= n <= s.len(),
        depth(s, n) < 0,
    ensures
        exists|p: int| fault_at(s, p),
    decreases n,
{
    if exists|m: int| 0 <= m < n && depth(s, m) < 0 {
        let m = choose|m: int| 0 <= m < n && depth(s, m) < 0;
        lemma_first_dip(s, m);
    } else {
        assert(depth(s, n) == depth(s, n - 1) + delta(s[n - 1]));
        assert(depth(s, n - 1) >= 0);
        assert(fault_at(s, n - 1));
    }
}

/// Where no depth is below zero and the depth stays above zero from some
/// position on, an open that stands outside every loop is never closed.
proof fn lemma_last_zero(s: Seq<char>, n: int)
    requires
        0 <= n < s.len(),
        forall|m: int| 0 <= m <= s.len() ==> depth(s, m) >= 0,
        forall|m: int| n < m <= s.len() ==> depth(s, m) > 0,
    ensures
        exists|p: int| fault_at(s, p),
    decreases n,
{
    assert(depth(s, n + 1) == depth(s, n) + delta(s[n]));
    if depth(s, n) == 0 {
        assert(fault_at(s, n));
    } else {
        assert(depth(s, n) > 0);
        lemma_last_zero(s, n - 1);
    }
}

/// A text that is not balanced has a fault: together with
/// `law_fault_unique` and `lemma_fault_unbalanced`, the texts that do not
/// parse are those with exactly one fault.
pub proof fn law_unbalanced_has_fault(s: Seq<char>)
    requires
        !balanced(s),
    ensures
        exists|p: int| fault_at(s, p),
{
    if exists|n: int| 0 <= n <= s.len() && depth(s, n) < 0 {
        let n = choose|n: int| 0 <= n <= s.len() && depth(s, n) < 0;
        lemma_first_dip(s, n);
    } else {
        assert(depth(s, s.len() as int) > 0);
        lemma_last_zero(s, s.len() - 1);
    }
}

/// Depths in two texts, one after the other.
proof fn lemma_depth_concat(a: Seq<char>, b: Seq<char>, n: int)
    requires
        0 <= n <= a.len() + b.len(),
    ensures
        depth(a + b, n) == if n <= a.len() {
            depth(a, n)
        } else {
            depth(a, a.len() as int) + depth(b, n - a.len())
        },
    decreases n,
{
    if n > 0 {
        lemma_depth_concat(a, b, n - 1);
        if n <= a.len() {
            assert((a + b)[n - 1] == a[n - 1]);
        } else {
            let m = n - a.len();
            assert((a + b)[n - 1] == b[m - 1]);
            assert(depth(b, m) == depth(b, m - 1) + delta(b[m - 1]));
            assert(depth(b, 0) == 0);
        }
    }
}

/// In a balanced text every open that stands outside the loops before it
/// has its close.
proof fn lemma_close_exists(s: Seq<char>, i: int, j: int)
    requires
        balanced(s),
        0 <= i <= j < s.len(),
        s[i] == '[',
        depth(s, i) == 0,
        forall|k: int| i < k <= j ==> depth(s, k) > 0,
    ensures
        exists|close: int| closes(s, i, close),
    decreases s.len() - j,
{
    assert(depth(s, j + 1) == depth(s, j) + delta(s[j]));
    if depth(s, j + 1) == 0 {
        assert(i < j);
        assert(closes(s, i, j));
    } else {
        assert(depth(s, j + 1) > 0);
        assert(j + 1 < s.len());
        lemma_close_exists(s, i, j + 1);
    }
}

/// What a balanced text denotes from a position outside its loops on does
/// not depend on what follows the text.
proof fn lemma_tree_concat(a: Seq<char>, b: Seq<char>, i: int)
    requires
        balanced(a),
        0 <= i <= a.len(),
        depth(a, i) == 0,
    ensures
        tree_from(a + b, i) == tree_from(a, i) + tree_from(b, 0),
    decreases a.len() - i,
{
    let s = a + b;
    if i == a.len() {
        lemma_tree_skip(a, b, 0);
        assert(tree_from(a, i) =~= Seq::<Node>::empty());
        assert(tree_from(s, i) =~= tree_from(a, i) + tree_from(b, 0));
    } else {
        assert(s[i] == a[i]);
        assert(depth(a, i + 1) == depth(a, i) + delta(a[i]));
        if a[i] == '[' {
            lemma_close_exists(a, i, i);
            let j = close_of(a, i);
            assert(closes(s, i, j)) by {
                lemma_depth_concat(a, b, i);
                lemma_depth_concat(a, b, j + 1);
                assert forall|k: int| i < k <= j implies #[trigger] depth(s, k) > depth(s, i) by {
                    lemma_depth_concat(a, b, k);
                }
            }
            lemma_close_unique(s, i, j);
            assert(s.subrange(i + 1, j) =~= a.subrange(i + 1, j));
            lemma_tree_concat(a, b, j + 1);
            assert(tree_from(s, i) =~= tree_from(a, i) + tree_from(b, 0));
        } else {
            assert(a[i] != ']');
            lemma_tree_concat(a, b, i + 1);
            assert(tree_from(s, i) =~= tree_from(a, i) + tree_from(b, 0));
        }
    }
}

/// What a text denotes behind a balanced text before it is what it denotes
/// alone.
proof fn lemma_tree_skip(a: Seq<char>, b: Seq<char>, i: int)
    requires
        balanced(a),
        0 <= i <= b.len(),
    ensures
        tree_from(a + b, a.len() + i) == tree_from(b, i),
    decreases b.len(), b.len() - i,
{
    let s = a + b;
    let n = a.len() as int;
    if i < b.len() {
        assert(s[n + i] == b[i]);
        assert forall|k: int| 0 <= k <= b.len() implies #[trigger] depth(s, n + k) == depth(b, k) by {
            lemma_depth_concat(a, b, n + k);
        }
        if b[i] == '[' {
            let j = close_of(b, i);
            let j2 = close_of(s, n + i);
            if closes(b, i, j) {
                assert(closes(s, n + i, n + j)) by {
                    assert(depth(s, n + (j + 1)) == depth(b, j + 1));
                    assert(depth(s, n + i) == depth(b, i));
                    assert forall|k: int| n + i < k <= n + j implies #[trigger] depth(s, k) > depth(s, n + i) by {
                        assert(depth(s, n + (k - n)) == depth(b, k - n));
                    }
                }
                lemma_close_unique(s, n + i, n + j);
                assert(s.subrange(n + i + 1, n + j) =~= b.subrange(i + 1, j));
                lemma_tree_skip(a, b, j + 1);
            } else if closes(s, n + i, j2) {
                assert(closes(b, i, j2 - n)) by {
                    assert(depth(s, n + (j2 - n + 1)) == depth(b, j2 - n + 1));
                    assert(depth(s, n + i) == depth(b, i));
                    assert forall|k: int| i < k <= j2 - n implies #[trigger] depth(b, k) > depth(b, i) by {
                        assert(depth(s, n + k) == depth(b, k));
                    }
                }
            }
        } else {
            lemma_tree_skip(a, b, i + 1);
        }
    }
}

/// A balanced text followed by another denotes the program of the first
/// followed by the program of the second, and the two together are balanced
/// exactly when the second is.
pub proof fn law_concat(a: Seq<char>, b: Seq<char>)
    requires
        balanced(a),
    ensures
        tree_of(a + b) == tree_of(a) + tree_of(b),
        balanced(a + b) == balanced(b),
{
    lemma_tree_concat(a, b, 0);
    let s = a + b;
    let n = a.len() as int;
    assert forall|k: int| 0 <= k <= b.len() implies #[trigger] depth(s, n + k) == depth(b, k) by {
        lemma_depth_concat(a, b, n + k);
    }
    assert forall|k: int| 0 <= k <= n implies #[trigger] depth(s, k) == depth(a, k) by {
        lemma_depth_concat(a, b, k);
    }
    if balanced(b) {
        assert forall|k: int| 0 <= k <= s.len() implies depth(s, k) >= 0 by {
            if k > n {
                assert(depth(s, n + (k - n)) == depth(b, k - n));
            }
        }
        assert(depth(s, n + b.len()) == depth(b, b.len() as int));
    }
    if balanced(s) {
        assert forall|k: int| 0 <= k <= b.len() implies depth(b, k) >= 0 by {
            assert(depth(s, n + k) == depth(b, k));
        }
        assert(depth(s, n + b.len()) == depth(b, b.len() as int));
    }
}

/// A balanced text between an open and a close is balanced, and denotes
/// the one loop around the program of the text.
pub proof fn law_loop(body: Seq<char>)
    requires
        balanced(body),
    ensures
        balanced(seq!['['] + body + seq![']']),
        tree_of(seq!['['] + body + seq![']']) == seq![Node::Loop(tree_of(body))],
{
    let s = seq!['['] + body + seq![']'];
    let last = body.len() as int + 1;
    assert(s[0] == '[');
    assert(s[last] == ']');
    assert(s.subrange(1, last) =~= body);
    assert(depth(s, 1) == depth(s, 0) + delta(s[0]));
    assert forall|k: int| 1 <= k <= last implies #[trigger] depth(s, k) == depth(body, k - 1) + 1 by {
        lemma_depth_subrange(s, 1, last, k - 1);
    }
    assert(depth(s, last + 1) == depth(s, last) + delta(s[last]));
    assert(closes(s, 0, last)) by {
        assert forall|k: int| 0 < k <= last implies #[trigger] depth(s, k) > depth(s, 0) by {
            assert(depth(body, k - 1) >= 0);
        }
    }
    lemma_close_unique(s, 0, last);
    assert(tree_from(s, last + 1) =~= Seq::<Node>::empty());
    assert(tree_of(s) =~= seq![Node::Loop(tree_of(body))]);
    assert forall|k: int| 0 <= k <= s.len() implies depth(s, k) >= 0 by {
        if 1 <= k <= last {
            assert(depth(body, k - 1) >= 0);
        }
    }
}

/// The empty text is the empty program.
pub proof fn law_empty()
    ensures
        balanced(Seq::<char>::empty()),
        tree_of(Seq::<char>::empty()) == Seq::<Node>::empty(),
{
}

/// Each of the six symbols, alone, is the program of its one instruction.
pub proof fn law_single_symbol(c: char)
    requires
        leaf(c) is Some,
    ensures
        balanced(seq![c]),
        tree_of(seq![c]) == seq![leaf(c)->Some_0],
{
    let s = seq![c];
    assert(depth(s, 0) == 0);
    assert(depth(s, 1) == depth(s, 0) + delta(s[0]));
    assert(tree_from(s, 1) =~= Seq::<Node>::empty());
    assert(tree_of(s) =~= seq![leaf(c)->Some_0]);
}

/// Whether a character means something to the parser.
pub open spec fn is_symbol(c: char) -> bool {
    leaf(c) is Some || c == '[' || c == ']'
}

/// Where position `i` of a text stands after a character was put in at `k`.
pub open spec fn shifted(k: int, i: int) -> int {
    if i < k {
        i
    } else {
        i + 1
    }
}

/// A character that is no delimiter leaves every depth as it was.
proof fn lemma_depth_insert(s: Seq<char>, k: int, c: char, n: int)
    requires
        0 <= k <= s.len(),
        delta(c) == 0,
        0 <= n <= s.len() + 1,
    ensures
        depth(s.insert(k, c), n) == depth(s, if n <= k { n } else { n - 1 }),
    decreases n,
{
    let t = s.insert(k, c);
    if n > 0 {
        lemma_depth_insert(s, k, c, n - 1);
        if n - 1 < k {
            assert(t[n - 1] == s[n - 1]);
        } else if n - 1 == k {
            assert(t[n - 1] == c);
        } else {
            assert(t[n - 1] == s[n - 2]);
        }
    }
}

/// A loop of the text is a loop of the text with the character put in.
proof fn lemma_closes_insert(s: Seq<char>, k: int, c: char, i: int, j: int)
    requires
        0 <= k <= s.len(),
        delta(c) == 0,
        closes(s, i, j),
    ensures
        closes(s.insert(k, c), shifted(k, i), shifted(k, j)),
{
    let t = s.insert(k, c);
    lemma_depth_insert(s, k, c, shifted(k, i));
    lemma_depth_insert(s, k, c, shifted(k, j) + 1);
    assert(t[shifted(k, i)] == s[i]);
    assert forall|m: int| shifted(k, i) < m <= shifted(k, j) implies #[trigger] depth(t, m) > depth(
        t,
        shifted(k, i),
    ) by {
        lemma_depth_insert(s, k, c, m);
        if m <= k {
            assert(depth(s, m) > depth(s, i));
        } else {
            assert(depth(s, m - 1) > depth(s, i));
        }
    }
}

/// A loop of the text with the character put in is a loop of the text.
proof fn lemma_closes_remove(s: Seq<char>, k: int, c: char, i: int, j: int)
    requires
        0 <= k <= s.len(),
        delta(c) == 0,
        0 <= i < s.len(),
        closes(s.insert(k, c), shifted(k, i), j),
    ensures
        j != k,
        closes(s, i, if j < k { j } else { j - 1 }),
{
    let t = s.insert(k, c);
    let i2 = shifted(k, i);
    assert(t[k] == c);
    assert(depth(t, j + 1) == depth(t, j) + delta(t[j]));
    assert(depth(t, j) > depth(t, i2) || j == i2 + 1) by {
        if j > i2 + 1 {
            assert(depth(t, j) > depth(t, i2));
        }
    }
    assert(depth(t, i2 + 1) == depth(t, i2) + delta(t[i2]));
    assert(j != k);
    let j1 = if j < k { j } else { j - 1 };
    lemma_depth_insert(s, k, c, i2);
    lemma_depth_insert(s, k, c, j + 1);
    assert(t[i2] == s[i]);
    assert forall|m: int| i < m <= j1 implies #[trigger] depth(s, m) > depth(s, i) by {
        let m2 = if m <= k { m } else { m + 1 };
        lemma_depth_insert(s, k, c, m2);
        assert(depth(t, m2) > depth(t, i2));
    }
}

/// The program of a text does not change where a character that is no
/// symbol is put in: seen from the positions after it.
proof fn lemma_tree_insert_after(s: Seq<char>, k: int, c: char, i: int)
    requires
        0 <= k <= s.len(),
        !is_symbol(c),
        k <= i,
    ensures
        tree_from(s.insert(k, c), i + 1) == tree_from(s, i),
    decreases s.len(), s.len() - i,
{
    let t = s.insert(k, c);
    if i < s.len() {
        assert(t[i + 1] == s[i]);
        if s[i] == '[' {
            let j = close_of(s, i);
            let j2 = close_of(t, i + 1);
            if closes(s, i, j) {
                lemma_closes_insert(s, k, c, i, j);
                lemma_close_unique(t, i + 1, j + 1);
                assert(t.subrange(i + 2, j + 1) =~= s.subrange(i + 1, j));
                lemma_tree_insert_after(s, k, c, j + 1);
            } else if closes(t, i + 1, j2) {
                lemma_closes_remove(s, k, c, i, j2);
            }
        } else {
            lemma_tree_insert_after(s, k, c, i + 1);
        }
    }
}

/// The program of a text does not change where a character that is no
/// symbol is put in: seen from the positions up to it.
proof fn lemma_tree_insert_before(s: Seq<char>, k: int, c: char, i: int)
    requires
        0 <= k <= s.len(),
        !is_symbol(c),
        0 <= i <= k,
    ensures
        tree_from(s.insert(k, c), i) == tree_from(s, i),
    decreases s.len(), s.len() - i,
{
    let t = s.insert(k, c);
    if i == k {
        assert(t[k] == c);
        lemma_tree_insert_after(s, k, c, k);
    } else {
        assert(t[i] == s[i]);
        if s[i] == '[' {
            let j = close_of(s, i);
            let j2 = close_of(t, i);
            if closes(s, i, j) {
                lemma_closes_insert(s, k, c, i, j);
                lemma_close_unique(t, i, shifted(k, j));
                if j < k {
                    assert(t.subrange(i + 1, j) =~= s.subrange(i + 1, j));
                    lemma_tree_insert_before(s, k, c, j + 1);
                } else {
                    assert(t.subrange(i + 1, j + 1) =~= s.subrange(i + 1, j).insert(k - i - 1, c));
                    lemma_tree_insert_before(s.subrange(i + 1, j), k - i - 1, c, 0);
                    lemma_tree_insert_after(s, k, c, j + 1);
                }
            } else if closes(t, i, j2) {
                lemma_closes_remove(s, k, c, i, j2);
            }
        } else {
            lemma_tree_insert_before(s, k, c, i + 1);
        }
    }
}

/// A character that is no symbol of the language, put in anywhere, changes
/// neither whether the text parses nor the program it denotes, and a fault
/// stays at the delimiter where it was.
pub proof fn law_noop_insert(s: Seq<char>, k: int, c: char)
    requires
        0 <= k <= s.len(),
        !is_symbol(c),
    ensures
        balanced(s.insert(k, c)) == balanced(s),
        tree_of(s.insert(k, c)) == tree_of(s),
        forall|p: int| fault_at(s, p) ==> fault_at(s.insert(k, c), shifted(k, p)),
{
    let t = s.insert(k, c);
    lemma_tree_insert_before(s, k, c, 0);
    assert forall|n: int| 0 <= n <= t.len() implies #[trigger] depth(t, n) == depth(
        s,
        if n <= k { n } else { n - 1 },
    ) by {
        lemma_depth_insert(s, k, c, n);
    }
    assert forall|n: int| 0 <= n <= s.len() implies #[trigger] depth(s, n) == depth(
        t,
        if n <= k { n } else { n + 1 },
    ) by {
        lemma_depth_insert(s, k, c, if n <= k { n } else { n + 1 });
    }
    assert(balanced(t) == balanced(s)) by {
        if balanced(s) {
            assert forall|n: int| 0 <= n <= t.len() implies depth(t, n) >= 0 by {
                assert(depth(s, if n <= k { n } else { n - 1 }) >= 0);
            }
        }
        if balanced(t) {
            assert forall|n: int| 0 <= n <= s.len() implies depth(s, n) >= 0 by {
                assert(depth(t, if n <= k { n } else { n + 1 }) >= 0);
            }
        }
    }
    assert forall|p: int| fault_at(s, p) implies fault_at(t, shifted(k, p)) by {
        let q = shifted(k, p);
        assert(t[q] == s[p]);
        assert forall|n: int| 0 <= n <= q implies depth(t, n) >= 0 by {
            assert(depth(s, if n <= k { n } else { n - 1 }) >= 0);
        }
        if s[p] == '[' {
            assert forall|n: int| q < n <= t.len() implies depth(t, n) > 0 by {
                assert(depth(s, if n <= k { n } else { n - 1 }) > 0);
            }
        }
    }
}

/// The characters of a text, in order.
fn characters(code: &str) -> (chars: Vec<char>)
    ensures
        chars@ == code@,
{
    let mut chars: Vec<char> = Vec::new();
    for c in it: code.chars()
        invariant
            it.seq() == code@,
            chars@ == code@.take(it.index()),
    {
        chars.push(c);
    }
    chars
}

/// Parses the characters of a text; `index_offset` is added to every
/// position that is reported.
fn parse_chars(index_offset: usize, s: &[char]) -> (r: Result<Vec<Instruction>, ParseError>)
    requires
        index_offset + s@.len() <= usize::MAX,
    ensures
        r is Ok <==> balanced(s@),
        r matches Ok(program) ==> nodes(program@) == tree_of(s@),
        r matches Err(e) ==> fault_at(s@, e->position - index_offset),
    decreases s@.len(),
{
    let mut instructions: Vec<Instruction> = Vec::new();
    let mut index: usize = 0;

    while index < s.len()
        invariant
            index <= s.len(),
            index_offset + s@.len() <= usize::MAX,
            forall|n: int| 0 <= n <= index ==> depth(s@, n) >= 0,
            depth(s@, index as int) == 0,
            nodes(instructions@) + tree_from(s@, index as int) == tree_of(s@),
        decreases s.len() - index,
    {
        let ghost before = instructions@;
        match s[index] {
            '<' => instructions.push(Instruction::MoveLeft),
            '>' => instructions.push(Instruction::MoveRight),
            '+' => instructions.push(Instruction::Increment),
            '-' => instructions.push(Instruction::Decrement),
            '.' => instructions.push(Instruction::Output),
            ',' => instructions.push(Instruction::Input),
            '[' => {
                let begin = index;
                let mut open: usize = 1;

                while open > 0
                    invariant
                        begin <= index < s.len(),
                        index_offset + s@.len() <= usize::MAX,
                        forall|n: int| 0 <= n <= begin ==> depth(s@, n) >= 0,
                        s@[begin as int] == '[',
                        depth(s@, begin as int) == 0,
                        open == depth(s@, index + 1),
                        open <= index - begin + 1,
                        forall|k: int| begin < k <= index ==> depth(s@, k) > 0,
                    decreases s.len() - index,
                {
                    index += 1;
                    if index >= s.len() {
                        proof {
                            lemma_fault_unbalanced(s@, begin as int);
                        }
                        return Err(ParseError::UndelimitedJump { position: index_offset + begin });
                    }
                    match s[index] {
                        '[' => open += 1,
                        ']' => open -= 1,
                        _ => {},
                    }
                }

                proof {
                    assert(closes(s@, begin as int, index as int));
                    lemma_close_unique(s@, begin as int, index as int);
                    lemma_body_balanced(s@, begin as int, index as int);
                }
                let body = slice_subrange(s, begin + 1, index);
                match parse_chars(begin, body) {
                    Ok(content) => {
                        proof {
                            lemma_loop_view(content);
                        }
                        instructions.push(Instruction::Loop(content));
                    },
                    Err(e) => {
                        return Err(e);
                    },
                }
                assert(nodes(instructions@) =~= nodes(before) + seq![
                    Node::Loop(tree_of(s@.subrange(begin + 1, index as int))),
                ]);
            },
            ']' => {
                proof {
                    lemma_fault_unbalanced(s@, index as int);
                }
                return Err(ParseError::UndelimitedJump { position: index_offset + index });
            },
            _ => {},
        }
        proof {
            if instructions@.len() == before.len() + 1 {
                assert(nodes(instructions@) =~= nodes(before) + seq![instructions@.last()@]);
            } else {
                assert(instructions@ == before);
            }
        }

        index += 1;
    }

    Ok(instructions)
}

/// Parses a source text into the program it denotes.
///
/// Each of `<`, `>`, `+`, `-`, `.` and `,` stands for one instruction, a pair
/// of `[` and `]` for a loop around what stands between them, and any other
/// character for nothing. The text parses exactly when its delimiters are
/// balanced; otherwise the error names the position of the delimiter that
/// stands outside every loop and has no partner, counted in characters from
/// `index_offset`.
///
/// Every position that can be named has to fit in a `usize`: `index_offset`
/// and the number of characters may not add up to more than `usize::MAX`.
/// With an offset of 0 that is so for every text.
pub fn parse(index_offset: usize, code: &str) -> (r: Result<Vec<Instruction>, ParseError>)
    requires
        code@.len() <= usize::MAX ==> index_offset + code@.len() <= usize::MAX,
    ensures
        r is Ok <==> balanced(code@),
        r matches Ok(program) ==> nodes(program@) == tree_of(code@),
        r matches Err(e) ==> fault_at(code@, e->position - index_offset),
{
    let chars = characters(code);
    // The characters are held in a vector, so their number fits.
    let count = chars.len();
    assert(count == code@.len());
    parse_chars(index_offset, chars.as_slice())
}

} // verus!
