//! Numbers and paths, and how they are written.
use vstd::prelude::*;

use crate::ids::{nth_number, path_text, steps_text, tagged, NodeId};
use crate::text::{decimal, digit_char};

verus! {

/// The number that digits denote.
pub open spec fn number_in(cs: Seq<char>) -> int
    decreases cs.len(),
{
    if cs.len() == 0 {
        0
    } else {
        number_in(cs.drop_last()) * 10 + (cs.last() as int - '0' as int)
    }
}

/// Decimal notation denotes the number it is made of, has nothing but digits,
/// and starts with none that could be left out.
pub proof fn law_decimal_notation_denotes_the_number(n: nat)
    ensures
        number_in(decimal(n)) == n,
        decimal(n).len() > 0,
        forall|i: int|
            0 <= i < decimal(n).len() ==> '0' <= #[trigger] decimal(n)[i] && decimal(n)[i] <= '9',
        n > 0 ==> decimal(n)[0] != '0',
    decreases n,
{
    if n < 10 {
        reveal_with_fuel(number_in, 2);
        let d = digit_char(n as int);
        assert(decimal(n).drop_last() =~= Seq::empty());
        assert(decimal(n).last() == d);
    } else {
        law_decimal_notation_denotes_the_number(n / 10);
        let d = digit_char((n % 10) as int);
        assert(decimal(n).drop_last() =~= decimal(n / 10));
        assert(decimal(n)[0] == decimal(n / 10)[0]);
    }
}

/// Different numbers are written differently.
pub proof fn law_different_numbers_are_written_differently(prefix: Seq<char>, a: u64, b: u64)
    ensures
        tagged(prefix, a) == tagged(prefix, b) ==> a == b,
        tagged(prefix, a).take(prefix.len() as int) == prefix,
{
    law_decimal_notation_denotes_the_number(a as nat);
    law_decimal_notation_denotes_the_number(b as nat);
    let x = tagged(prefix, a);
    let y = tagged(prefix, b);
    assert(x.skip(prefix.len() as int) =~= decimal(a as nat));
    assert(y.skip(prefix.len() as int) =~= decimal(b as nat));
    assert(x.take(prefix.len() as int) =~= prefix);
}

/// Allocated numbers go up by one and start over past the largest.
pub proof fn law_numbers_are_handed_out_in_order(start: u64, k: nat)
    ensures
        nth_number(start, k) == (start + k) % 0x1_0000_0000_0000_0000,
    decreases k,
{
    if k > 0 {
        law_numbers_are_handed_out_in_order(start, (k - 1) as nat);
    }
}

/// The text of a path names its nodes from the root down, each behind a
/// slash; the root is a slash alone.
pub proof fn law_a_path_names_its_nodes(path: Seq<NodeId>, rest: Seq<NodeId>, n: NodeId)
    ensures
        path_text(Seq::empty()) == "/"@,
        path_text(seq![n]) == "/n"@ + decimal(n.0 as nat),
        path.len() > 0 && rest.len() > 0 ==> path_text(path + rest) == path_text(path)
            + path_text(rest),
    decreases rest.len(),
{
    reveal_with_fuel(steps_text, 2);
    reveal_strlit("/n");
    reveal_strlit("/");
    reveal_strlit("n");
    assert(seq![n].drop_last() =~= Seq::empty());
    assert(path_text(seq![n]) =~= "/n"@ + decimal(n.0 as nat));
    lemma_steps_join(path, rest);
}

proof fn lemma_steps_join(path: Seq<NodeId>, rest: Seq<NodeId>)
    ensures
        steps_text(path + rest) == steps_text(path) + steps_text(rest),
    decreases rest.len(),
{
    if rest.len() == 0 {
        assert(path + rest =~= path);
        assert(steps_text(path) + steps_text(rest) =~= steps_text(path));
    } else {
        lemma_steps_join(path, rest.drop_last());
        assert((path + rest).drop_last() =~= path + rest.drop_last());
        assert((path + rest).last() == rest.last());
        assert(steps_text(path + rest) =~= steps_text(path) + steps_text(rest));
    }
}

} // verus!
