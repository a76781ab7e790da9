use vstd::prelude::*;
use vstd::string::StrSliceExecFns;
use vstd::string::StringExecFns;

verus! {

/// The template text with its `{}` holes named in turn from `names`; holes
/// past the last name stay as they are.
pub open spec fn filled(text: Seq<char>, names: Seq<Seq<char>>) -> Seq<char>
    decreases text.len(),
{
    if text.len() == 0 {
        Seq::empty()
    } else if text.len() >= 2 && text[0] == '{' && text[1] == '}' && names.len() > 0 {
        "{"@ + names[0] + "}"@ + filled(text.skip(2), names.drop_first())
    } else {
        seq![text[0]] + filled(text.skip(1), names)
    }
}

/// Names the holes of a template after the properties captured with it.
pub fn build_template(text: &str, names: &Vec<String>) -> (r: String)
    ensures
        r@ == filled(text@, names@.map_values(|n: String| n@)),
{
    let ghost t = text@;
    let ghost ns = names@.map_values(|n: String| n@);
    let n = text.unicode_len();
    let mut out = String::new();
    let mut i: usize = 0;
    let mut k: usize = 0;
    assert(t.skip(0) =~= t && ns.skip(0) =~= ns);
    while i < n
        invariant
            n == t.len(),
            t == text@,
            ns == names@.map_values(|n: String| n@),
            i <= n,
            k <= ns.len(),
            out@ + filled(t.skip(i as int), ns.skip(k as int)) == filled(t, ns),
        decreases n - i,
    {
        let ghost rest = t.skip(i as int);
        let ghost nrest = ns.skip(k as int);
        let c = text.get_char(i);
        if c == '{' && i + 1 < n && text.get_char(i + 1) == '}' && k < names.len() {
            proof {
                assert(rest.skip(2) =~= t.skip(i + 2));
                assert(nrest.drop_first() =~= ns.skip(k + 1));
                assert(nrest[0] == names@[k as int]@);
            }
            let ghost before = out@;
            out.append("{");
            out.append(names[k].as_str());
            out.append("}");
            assert(out@ =~= before + ("{"@ + nrest[0] + "}"@));
            assert(out@ + filled(t.skip(i + 2), ns.skip(k + 1)) =~= before + filled(rest, nrest));
            i = i + 2;
            k = k + 1;
        } else {
            proof {
                assert(rest.skip(1) =~= t.skip(i + 1));
            }
            let ghost before = out@;
            let piece = text.substring_char(i, i + 1);
            out.append(piece);
            assert(out@ =~= before + seq![rest[0]]);
            assert(out@ + filled(t.skip(i + 1), nrest) =~= before + filled(rest, nrest));
            i = i + 1;
        }
    }
    assert(t.skip(i as int) =~= Seq::<char>::empty());
    assert(out@ + filled(t.skip(i as int), ns.skip(k as int)) =~= out@);
    out
}

} // verus!
