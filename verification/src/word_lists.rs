//! The word supplier: per-difficulty pools of target words. Loading large
//! word lists from data files is a collaborator concern; the pools here are
//! small built-in defaults, and the contracts only promise that a drawn word
//! comes from the requested pool and has at least two characters.

use vstd::prelude::*;
use crate::rng::rand_range;

verus! {

#[derive(Clone, Copy, Debug, Eq, PartialEq, Structural)]
pub enum WordDifficulty {
    Easy,
    Medium,
    Hard,
}

pub struct WordList {
    easy: Vec<String>,
    medium: Vec<String>,
    hard: Vec<String>,
}

impl WordList {
    /// The pool that a difficulty tier draws from.
    pub closed spec fn pool(self, difficulty: WordDifficulty) -> Seq<String> {
        match difficulty {
            WordDifficulty::Easy => self.easy@,
            WordDifficulty::Medium => self.medium@,
            WordDifficulty::Hard => self.hard@,
        }
    }

    /// Every pool holds at least one word and every word has at least two
    /// characters, so a word can always be supplied, always has a first
    /// character to match, and is never finished by the keystroke that
    /// starts it.
    pub open spec fn wf(self) -> bool {
        forall|d: WordDifficulty|
            #![trigger self.pool(d)]
            0 < self.pool(d).len() < 0x8000_0000 && (forall|k: int|
                0 <= k < self.pool(d).len() ==> (#[trigger] self.pool(d)[k])@.len() > 1)
    }

    pub fn new() -> (r: Self)
        ensures
            r.wf(),
    {
        let mut easy: Vec<String> = Vec::new();
        easy.push("tree".to_owned());
        easy.push("wood".to_owned());
        easy.push("leaf".to_owned());
        easy.push("bark".to_owned());
        easy.push("twig".to_owned());
        easy.push("moss".to_owned());
        let mut medium: Vec<String> = Vec::new();
        medium.push("copper".to_owned());
        medium.push("planks".to_owned());
        medium.push("timber".to_owned());
        medium.push("lumber".to_owned());
        medium.push("branch".to_owned());
        medium.push("forest".to_owned());
        let mut hard: Vec<String> = Vec::new();
        hard.push("program".to_owned());
        hard.push("workbench".to_owned());
        hard.push("minerals".to_owned());
        hard.push("smelting".to_owned());
        let r = WordList { easy, medium, hard };
        proof {
            reveal_strlit("tree");
            reveal_strlit("wood");
            reveal_strlit("leaf");
            reveal_strlit("bark");
            reveal_strlit("twig");
            reveal_strlit("moss");
            reveal_strlit("copper");
            reveal_strlit("planks");
            reveal_strlit("timber");
            reveal_strlit("lumber");
            reveal_strlit("branch");
            reveal_strlit("forest");
            reveal_strlit("program");
            reveal_strlit("workbench");
            reveal_strlit("minerals");
            reveal_strlit("smelting");
            assert forall|d: WordDifficulty|
                #![trigger r.pool(d)]
                0 < r.pool(d).len() < 0x8000_0000 && (forall|k: int|
                    0 <= k < r.pool(d).len() ==> (#[trigger] r.pool(d)[k])@.len() > 1) by {
                match d {
                    WordDifficulty::Easy => {
                        assert(forall|k: int|
                            0 <= k < r.pool(d).len() ==> (#[trigger] r.pool(d)[k])@.len() > 0);
                    },
                    WordDifficulty::Medium => {
                        assert(forall|k: int|
                            0 <= k < r.pool(d).len() ==> (#[trigger] r.pool(d)[k])@.len() > 0);
                    },
                    WordDifficulty::Hard => {
                        assert(forall|k: int|
                            0 <= k < r.pool(d).len() ==> (#[trigger] r.pool(d)[k])@.len() > 0);
                    },
                }
            }
        }
        r
    }

    /// A uniformly random word of the requested pool.
    pub fn get_random_word(&self, difficulty: WordDifficulty) -> (r: String)
        requires
            self.wf(),
        ensures
            exists|k: int|
                0 <= k < self.pool(difficulty).len() && r@ == (#[trigger] self.pool(
                    difficulty,
                )[k])@,
            r@.len() > 1,
    {
        let pool: &Vec<String> = match difficulty {
            WordDifficulty::Easy => &self.easy,
            WordDifficulty::Medium => &self.medium,
            WordDifficulty::Hard => &self.hard,
        };
        assert(pool@ == self.pool(difficulty));
        assert(0 < pool@.len() < 0x8000_0000);
        let k = rand_range(0, pool.len() as i64) as usize;
        let word = pool[k].clone();
        assert(word@ == (self.pool(difficulty)[k as int])@);
        word
    }
}

} // verus!
