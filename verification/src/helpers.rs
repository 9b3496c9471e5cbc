//! Supply consistency on normalized readings: a missing reading counts as
//! `1000/1000`, and blanks around each `/`-separated part are ignored.
use vstd::prelude::*;
use crate::models::{opt_chars, SupplyData};
use crate::text::{join_with, push_str, split_on, split_str, str_eq, trim, trim_string};
use crate::MetaError;

verus! {

/// The reading that stands for a missing supply.
pub open spec fn missing_supply() -> Seq<char> {
    "1000/1000"@
}

/// A supply reading with each `/`-separated part trimmed.
pub open spec fn normalized_slash(s: Seq<char>) -> Seq<char> {
    join_with(split_on(s, '/').map_values(|p: Seq<char>| trim(p)), "/"@)
}

/// The normalized text compared for a (possibly missing) supply reading.
pub open spec fn supply_key(o: Option<Seq<char>>) -> Seq<char> {
    normalized_slash(
        match o {
            Some(s) => s,
            None => missing_supply(),
        },
    )
}

/// Whether each player's normalized supply in `c` equals that of `p` or of
/// `n`.
pub open spec fn supply_consistency(
    p: (Option<Seq<char>>, Option<Seq<char>>),
    c: (Option<Seq<char>>, Option<Seq<char>>),
    n: (Option<Seq<char>>, Option<Seq<char>>),
) -> (bool, bool) {
    (
        supply_key(c.0) == supply_key(p.0) || supply_key(c.0) == supply_key(n.0),
        supply_key(c.1) == supply_key(p.1) || supply_key(c.1) == supply_key(n.1),
    )
}

/// The two supply readings of a frame.
pub open spec fn supply_view(d: SupplyData) -> (Option<Seq<char>>, Option<Seq<char>>) {
    (opt_chars(d.player1supply), opt_chars(d.player2supply))
}

/// The supply reading, or `1000/1000` when it is missing.
fn get_str(supply_opt: &Option<String>) -> (s: String)
    ensures
        s@ == match opt_chars(*supply_opt) {
            Some(t) => t,
            None => missing_supply(),
        },
{
    match supply_opt {
        Some(s) => s.clone(),
        None => "1000/1000".to_string(),
    }
}

/// The reading with blanks around each `/`-separated part removed.
fn normalize_slash(txt: String) -> (r: Result<String, MetaError>)
    ensures
        r matches Ok(s) && s@ == normalized_slash(txt@),
{
    let parts = split_str(txt.as_str(), '/');
    let ghost trimmed = split_on(txt@, '/').map_values(|p: Seq<char>| trim(p));
    let ghost sep = "/"@;
    proof {
        reveal_strlit("/");
    }
    let mut out = String::new();
    let mut i: usize = 0;
    while i < parts.len()
        invariant
            parts.deep_view() == split_on(txt@, '/'),
            trimmed == split_on(txt@, '/').map_values(|p: Seq<char>| trim(p)),
            sep == "/"@,
            sep == seq!['/'],
            i <= parts@.len(),
            out@ == join_with(trimmed.take(i as int), sep),
        decreases parts@.len() - i,
    {
        assert(parts.deep_view()[i as int] == parts@[i as int]@);
        let piece = trim_string(parts[i].as_str());
        assert(trimmed[i as int] == piece@);
        let ghost before = out@;
        if i > 0 {
            out.push('/');
        }
        push_str(&mut out, piece.as_str());
        proof {
            let t = trimmed.take(i + 1);
            assert(t.drop_last() =~= trimmed.take(i as int));
            assert(t.last() == piece@);
            if i == 0 {
                assert(out@ =~= t[0]);
            } else {
                assert(out@ =~= before + sep + piece@);
            }
        }
        i = i + 1;
    }
    assert(trimmed.take(parts@.len() as int) =~= trimmed);
    Ok(out)
}

/// Whether each player's supply in `c_frame` matches that of `p_frame` or of
/// `n_frame`, comparing normalized readings (a missing reading counts as
/// `1000/1000`).
pub fn find_consistent(p_frame: &SupplyData, c_frame: &SupplyData, n_frame: &SupplyData) -> (r: Result<
    (bool, bool),
    MetaError,
>)
    ensures
        r matches Ok(k) && k == supply_consistency(
            supply_view(*p_frame),
            supply_view(*c_frame),
            supply_view(*n_frame),
        ),
{
    let c1 = match normalize_slash(get_str(&c_frame.player1supply)) {
        Ok(s) => s,
        Err(e) => return Err(e),
    };
    let n1 = match normalize_slash(get_str(&n_frame.player1supply)) {
        Ok(s) => s,
        Err(e) => return Err(e),
    };
    let p1 = match normalize_slash(get_str(&p_frame.player1supply)) {
        Ok(s) => s,
        Err(e) => return Err(e),
    };
    let c2 = match normalize_slash(get_str(&c_frame.player2supply)) {
        Ok(s) => s,
        Err(e) => return Err(e),
    };
    let n2 = match normalize_slash(get_str(&n_frame.player2supply)) {
        Ok(s) => s,
        Err(e) => return Err(e),
    };
    let p2 = match normalize_slash(get_str(&p_frame.player2supply)) {
        Ok(s) => s,
        Err(e) => return Err(e),
    };
    let player1 = str_eq(c1.as_str(), p1.as_str()) || str_eq(c1.as_str(), n1.as_str());
    let player2 = str_eq(c2.as_str(), p2.as_str()) || str_eq(c2.as_str(), n2.as_str());
    Ok((player1, player2))
}

/// A missing supply reading compares like the reading `1000/1000`.
pub proof fn lemma_missing_supply_key()
    ensures
        supply_key(None) == supply_key(Some("1000/1000"@)),
{
}

} // verus!
