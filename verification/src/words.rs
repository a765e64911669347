//! The word encoder: from dictionary lines to letter-set keys, merging
//! anagrams, plus the display form of a letter set.

use std::collections::HashMap;

use vstd::prelude::*;
use vstd::string::{StrSliceExecFns, StringExecFns};

use crate::bits::{count_bits, in_alphabet, lemma_alphabet_ops, lemma_zero_ops, pc};
use crate::grouping::valid_dict;

verus! {

/// A lowercase letter.
pub open spec fn lower_char(c: char) -> bool {
    'a' <= c <= 'z'
}

/// A word of lowercase letters, as the collaborator guarantees.
pub open spec fn lower_word(s: Seq<char>) -> bool {
    forall|i: int| 0 <= i < s.len() ==> lower_char(#[trigger] s[i])
}

/// The letter set of a word: bit `c - 'a'` for each letter `c`.
pub open spec fn letters_of(s: Seq<char>) -> u32
    decreases s.len(),
{
    if s.len() == 0 {
        0
    } else {
        letters_of(s.drop_last()) | (1u32 << (((s.last() as u32) - 97) as u32))
    }
}

/// A word the dictionary keeps: five letters, all distinct.
pub open spec fn is_five(s: Seq<char>) -> bool {
    s.len() == 5 && pc(letters_of(s)) == 5
}

/// The letter set of a lowercase word stays within the alphabet mask.
pub proof fn lemma_letters_in_alphabet(s: Seq<char>)
    requires
        lower_word(s),
    ensures
        in_alphabet(letters_of(s)),
    decreases s.len(),
{
    if s.len() == 0 {
        lemma_zero_ops(0x3ff_ffffu32);
    } else {
        assert(lower_word(s.drop_last())) by {
            assert(forall|i: int| 0 <= i < s.len() - 1 ==> #[trigger] s.drop_last()[i] == s[i]);
        }
        lemma_letters_in_alphabet(s.drop_last());
        let l = ((s.last() as u32) - 97) as u32;
        assert(lower_char(s[s.len() - 1]));
        assert(l < 26);
        lemma_alphabet_ops(letters_of(s.drop_last()), 1u32 << l, l);
    }
}

/// Encode a lowercase word: its letter set and an owned copy of its text,
/// if and only if it has exactly five distinct letters.
pub fn five_letter(word: &str) -> (r: Option<(u32, String)>)
    requires
        lower_word(word@),
    ensures
        r is Some <==> is_five(word@),
        r matches Some(p) ==> p.0 == letters_of(word@) && p.1@ == word@,
{
    let n = word.unicode_len();
    if n != 5 {
        return None;
    }
    let mut letters: u32 = 0;
    proof {
        assert(word@.take(0) =~= Seq::<char>::empty());
    }
    let mut i: usize = 0;
    while i < 5
        invariant
            i <= 5,
            word@.len() == 5,
            lower_word(word@),
            letters == letters_of(word@.take(i as int)),
        decreases 5 - i,
    {
        let c = word.get_char(i);
        proof {
            assert(lower_char(word@[i as int]));
        }
        let code = c as u32;
        letters = letters | (1u32 << (code - 97));
        proof {
            let t = word@.take(i + 1);
            assert(t.drop_last() =~= word@.take(i as int));
            assert(t.last() == word@[i as int]);
        }
        i = i + 1;
    }
    proof {
        assert(word@.take(5) =~= word@);
    }
    let cnt = count_bits(letters);
    if cnt != 5 {
        return None;
    }
    Some((letters, word.to_owned()))
}

/// The words of a list as character sequences.
pub open spec fn word_views(ws: Seq<String>) -> Seq<Seq<char>> {
    ws.map_values(|w: String| w@)
}

/// The dictionary built from a list of words, processed in order: each
/// five-distinct-letter word is keyed by its letter set, and anagrams are
/// merged into one slash-separated label.
pub open spec fn dict_of(ws: Seq<Seq<char>>) -> Map<u32, Seq<char>>
    decreases ws.len(),
{
    if ws.len() == 0 {
        Map::empty()
    } else {
        let m = dict_of(ws.drop_last());
        let w = ws.last();
        if !is_five(w) {
            m
        } else {
            let k = letters_of(w);
            if m.contains_key(k) {
                m.insert(k, m[k] + seq!['/'] + w)
            } else {
                m.insert(k, w)
            }
        }
    }
}

/// The distinct keys of the dictionary, in order of first discovery.
pub open spec fn keys_of(ws: Seq<Seq<char>>) -> Seq<u32>
    decreases ws.len(),
{
    if ws.len() == 0 {
        Seq::empty()
    } else {
        let ks = keys_of(ws.drop_last());
        let w = ws.last();
        if is_five(w) && !dict_of(ws.drop_last()).contains_key(letters_of(w)) {
            ks.push(letters_of(w))
        } else {
            ks
        }
    }
}

/// Build the dictionary from a list of validated lowercase words: the map
/// from each letter-set key to its merged anagram label, and the list of
/// distinct keys in discovery order — a valid dictionary for the space
/// builder.
#[verifier::loop_isolation(false)]
pub fn assemble_dicts(words: &Vec<String>) -> (r: (HashMap<u32, String>, Vec<u32>))
    requires
        forall|i: int| 0 <= i < words@.len() ==> lower_word((#[trigger] words@[i])@),
    ensures
        r.0@.dom() == dict_of(word_views(words@)).dom(),
        forall|k: u32|
            r.0@.dom().contains(k) ==> (#[trigger] r.0@[k])@ == dict_of(word_views(words@))[k],
        r.1@ == keys_of(word_views(words@)),
        valid_dict(r.1@),
        forall|k: u32| r.1@.contains(k) <==> dict_of(word_views(words@)).contains_key(k),
{
    let wn = words.len();
    let ghost wv = word_views(words@);
    let mut map: HashMap<u32, String> = HashMap::new();
    let mut keys: Vec<u32> = Vec::new();
    proof {
        assert(wv.take(0) =~= Seq::<Seq<char>>::empty());
    }
    let mut i: usize = 0;
    while i < wn
        invariant
            i <= wn,
            map@.dom() == dict_of(wv.take(i as int)).dom(),
            forall|k: u32|
                map@.dom().contains(k) ==> (#[trigger] map@[k])@ == dict_of(wv.take(i as int))[k],
            keys@ == keys_of(wv.take(i as int)),
            forall|k: u32| keys@.contains(k) <==> dict_of(wv.take(i as int)).contains_key(k),
            forall|j: int|
                0 <= j < keys@.len() ==> in_alphabet(#[trigger] keys@[j]) && pc(keys@[j]) == 5,
            forall|j1: int, j2: int| 0 <= j1 < j2 < keys@.len() ==> keys@[j1] != keys@[j2],
        decreases wn - i,
    {
        let ghost pre = wv.take(i as int);
        let ghost cur = wv.take(i as int + 1);
        proof {
            assert(cur.drop_last() =~= pre);
            assert(cur.last() == wv[i as int]);
            assert(wv[i as int] == words@[i as int]@);
        }
        let line = &words[i];
        match five_letter(line.as_str()) {
            None => {
                proof {
                    assert(!is_five(wv[i as int]));
                    assert(dict_of(cur) == dict_of(pre));
                    assert(keys_of(cur) == keys_of(pre));
                }
            },
            Some(ks) => {
                let (k, s) = ks;
                proof {
                    assert(is_five(wv[i as int]));
                    assert(k == letters_of(wv[i as int]));
                    assert(s@ == wv[i as int]);
                }
                if map.contains_key(&k) {
                    let ghost map0 = map@;
                    let mut merged = map.get(&k).unwrap().clone();
                    merged.append("/");
                    merged.append(s.as_str());
                    map.insert(k, merged);
                    proof {
                        reveal_strlit("/");
                        assert("/"@ =~= seq!['/']);
                        assert(merged@ =~= dict_of(pre)[k] + seq!['/'] + wv[i as int]);
                        assert(dict_of(cur) == dict_of(pre).insert(k, dict_of(pre)[k] + seq!['/']
                            + wv[i as int]));
                        assert(map@.dom() =~= dict_of(cur).dom());
                        assert(keys_of(cur) == keys_of(pre));
                        assert forall|kk: u32| keys@.contains(kk) <==> dict_of(cur).contains_key(
                            kk,
                        ) by {
                            assert(dict_of(cur).contains_key(kk) <==> (kk == k || dict_of(
                                pre,
                            ).contains_key(kk)));
                        }
                    }
                } else {
                    map.insert(k, s);
                    keys.push(k);
                    proof {
                        assert(dict_of(cur) == dict_of(pre).insert(k, wv[i as int]));
                        assert(map@.dom() =~= dict_of(cur).dom());
                        assert(keys_of(cur) == keys_of(pre).push(k));
                        lemma_letters_in_alphabet(wv[i as int]);
                        let keys0 = keys_of(pre);
                        assert(keys@ == keys0.push(k));
                        assert(keys@[keys0.len() as int] == k);
                        assert(forall|j: int| 0 <= j < keys0.len() ==> #[trigger] keys@[j] == keys0[j]);
                        assert forall|j: int| 0 <= j < keys0.len() implies keys0[j] != k by {
                            if keys0[j] == k {
                                assert(keys0.contains(k));
                            }
                        }
                        assert forall|kk: u32| keys@.contains(kk) <==> dict_of(cur).contains_key(
                            kk,
                        ) by {
                            assert(dict_of(cur).contains_key(kk) <==> (kk == k || dict_of(
                                pre,
                            ).contains_key(kk)));
                            if keys@.contains(kk) {
                                let idx = choose|idx: int|
                                    0 <= idx < keys@.len() && keys@[idx] == kk;
                                if idx < keys0.len() {
                                    assert(keys0.contains(kk));
                                }
                            }
                            if kk == k {
                                assert(keys@.contains(kk));
                            } else if dict_of(pre).contains_key(kk) {
                                assert(keys0.contains(kk));
                                let idx = choose|idx: int|
                                    0 <= idx < keys0.len() && keys0[idx] == kk;
                                assert(keys@[idx] == kk);
                            }
                        }
                    }
                }
            },
        }
        i = i + 1;
    }
    proof {
        assert(wv.take(wn as int) =~= wv);
    }
    (map, keys)
}

/// The character of letter index `l`.
pub open spec fn letter_char(l: int) -> char {
    seq!['a', 'b', 'c', 'd', 'e', 'f', 'g', 'h', 'i', 'j', 'k', 'l', 'm', 'n', 'o', 'p', 'q', 'r',
        's', 't', 'u', 'v', 'w', 'x', 'y', 'z'][l]
}

/// The letters of a set from index `i` on, in alphabetical order.
pub open spec fn letters_string(cs: u32, i: int) -> Seq<char>
    decreases 26 - i,
{
    if i < 0 || i >= 26 {
        Seq::empty()
    } else {
        (if cs & (1u32 << (i as u32)) != 0 {
            seq![letter_char(i)]
        } else {
            Seq::empty()
        }) + letters_string(cs, i + 1)
    }
}

fn letter_str(l: u32) -> (r: &'static str)
    requires
        l < 26,
    ensures
        r@.len() == 1 && r@[0] == letter_char(l as int),
{
    proof {
        reveal_strlit("a");
        reveal_strlit("b");
        reveal_strlit("c");
        reveal_strlit("d");
        reveal_strlit("e");
        reveal_strlit("f");
        reveal_strlit("g");
        reveal_strlit("h");
        reveal_strlit("i");
        reveal_strlit("j");
        reveal_strlit("k");
        reveal_strlit("l");
        reveal_strlit("m");
        reveal_strlit("n");
        reveal_strlit("o");
        reveal_strlit("p");
        reveal_strlit("q");
        reveal_strlit("r");
        reveal_strlit("s");
        reveal_strlit("t");
        reveal_strlit("u");
        reveal_strlit("v");
        reveal_strlit("w");
        reveal_strlit("x");
        reveal_strlit("y");
        reveal_strlit("z");
    }
    match l {
        0 => "a",
        1 => "b",
        2 => "c",
        3 => "d",
        4 => "e",
        5 => "f",
        6 => "g",
        7 => "h",
        8 => "i",
        9 => "j",
        10 => "k",
        11 => "l",
        12 => "m",
        13 => "n",
        14 => "o",
        15 => "p",
        16 => "q",
        17 => "r",
        18 => "s",
        19 => "t",
        20 => "u",
        21 => "v",
        22 => "w",
        23 => "x",
        24 => "y",
        _ => "z",
    }
}

/// The letters of a set, in alphabetical order, as text.
pub fn letterset_string(cs: u32) -> (r: String)
    ensures
        r@ == letters_string(cs, 0),
{
    let mut r = String::new();
    let mut i: u32 = 0;
    while i < 26
        invariant
            i <= 26,
            letters_string(cs, 0) == r@ + letters_string(cs, i as int),
        decreases 26 - i,
    {
        let ghost r0 = r@;
        if cs & (1u32 << i) != 0 {
            let s = letter_str(i);
            r.append(s);
            proof {
                assert(s@ =~= seq![letter_char(i as int)]);
                assert(letters_string(cs, i as int) == seq![letter_char(i as int)]
                    + letters_string(cs, i as int + 1));
                assert(r0 + (seq![letter_char(i as int)] + letters_string(cs, i as int + 1)) =~= (r0
                    + seq![letter_char(i as int)]) + letters_string(cs, i as int + 1));
            }
        } else {
            proof {
                assert(Seq::<char>::empty() + letters_string(cs, i as int + 1) =~= letters_string(
                    cs,
                    i as int + 1,
                ));
            }
        }
        i = i + 1;
    }
    proof {
        assert(letters_string(cs, 26) =~= Seq::<char>::empty());
        assert(r@ + Seq::<char>::empty() =~= r@);
    }
    r
}

} // verus!
