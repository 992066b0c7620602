//! The balance ledger: per user and asset, funds available and funds
//! locked behind resting orders, in `10^-12` units.
use vstd::prelude::*;

verus! {

#[derive(Clone, Copy, Debug)]
pub struct Balance {
    pub available: u128,
    pub locked: u128,
}

pub struct AssetEntry {
    pub asset: String,
    pub bal: Balance,
}

pub struct UserEntry {
    pub user_id: String,
    pub assets: Vec<AssetEntry>,
}

pub struct Ledger {
    pub users: Vec<UserEntry>,
}

/// Index of the first entry for this user, or `-1`.
pub open spec fn find_user_spec(users: Seq<UserEntry>, user: Seq<char>) -> int
    decreases users.len(),
{
    if users.len() == 0 {
        -1
    } else if users[0].user_id@ == user {
        0
    } else {
        let r = find_user_spec(users.drop_first(), user);
        if r < 0 {
            -1
        } else {
            r + 1
        }
    }
}

/// Index of the first entry for this asset, or `-1`.
pub open spec fn find_asset_spec(assets: Seq<AssetEntry>, asset: Seq<char>) -> int
    decreases assets.len(),
{
    if assets.len() == 0 {
        -1
    } else if assets[0].asset@ == asset {
        0
    } else {
        let r = find_asset_spec(assets.drop_first(), asset);
        if r < 0 {
            -1
        } else {
            r + 1
        }
    }
}

pub proof fn lemma_find_user_spec(users: Seq<UserEntry>, user: Seq<char>)
    ensures
        -1 <= find_user_spec(users, user) < users.len(),
        find_user_spec(users, user) >= 0 ==> users[find_user_spec(users, user)].user_id@ == user,
        find_user_spec(users, user) == -1 ==> forall|i: int|
            0 <= i < users.len() ==> (#[trigger] users[i]).user_id@ != user,
        forall|i: int|
            0 <= i < find_user_spec(users, user) ==> (#[trigger] users[i]).user_id@ != user,
    decreases users.len(),
{
    if users.len() > 0 && users[0].user_id@ != user {
        lemma_find_user_spec(users.drop_first(), user);
        assert(forall|i: int|
            0 <= i < users.drop_first().len() ==> (#[trigger] users.drop_first()[i]) == users[
                i + 1
            ]);
        let r = find_user_spec(users, user);
        if r == -1 {
            assert forall|i: int| 0 <= i < users.len() implies (#[trigger] users[i]).user_id@
                != user by {
                if i >= 1 {
                    assert(users.drop_first()[i - 1] == users[i]);
                }
            }
        } else {
            assert forall|i: int| 0 <= i < r implies (#[trigger] users[i]).user_id@ != user by {
                if i >= 1 {
                    assert(users.drop_first()[i - 1] == users[i]);
                }
            }
        }
    }
}

pub proof fn lemma_find_asset_spec(assets: Seq<AssetEntry>, asset: Seq<char>)
    ensures
        -1 <= find_asset_spec(assets, asset) < assets.len(),
        find_asset_spec(assets, asset) >= 0 ==> assets[find_asset_spec(assets, asset)].asset@
            == asset,
        find_asset_spec(assets, asset) == -1 ==> forall|i: int|
            0 <= i < assets.len() ==> (#[trigger] assets[i]).asset@ != asset,
        forall|i: int|
            0 <= i < find_asset_spec(assets, asset) ==> (#[trigger] assets[i]).asset@ != asset,
    decreases assets.len(),
{
    if assets.len() > 0 && assets[0].asset@ != asset {
        lemma_find_asset_spec(assets.drop_first(), asset);
        assert(forall|i: int|
            0 <= i < assets.drop_first().len() ==> (#[trigger] assets.drop_first()[i]) == assets[
                i + 1
            ]);
        let r = find_asset_spec(assets, asset);
        if r == -1 {
            assert forall|i: int| 0 <= i < assets.len() implies (#[trigger] assets[i]).asset@
                != asset by {
                if i >= 1 {
                    assert(assets.drop_first()[i - 1] == assets[i]);
                }
            }
        } else {
            assert forall|i: int| 0 <= i < r implies (#[trigger] assets[i]).asset@ != asset by {
                if i >= 1 {
                    assert(assets.drop_first()[i - 1] == assets[i]);
                }
            }
        }
    }
}

impl Ledger {
    /// Funds available to the user in this asset; zero when no entry
    /// exists.
    pub open spec fn avail_of(&self, user: Seq<char>, asset: Seq<char>) -> int {
        let ui = find_user_spec(self.users@, user);
        if ui < 0 {
            0
        } else {
            let ai = find_asset_spec(self.users@[ui].assets@, asset);
            if ai < 0 {
                0
            } else {
                self.users@[ui].assets@[ai].bal.available as int
            }
        }
    }

    /// Funds locked for the user in this asset; zero when no entry exists.
    pub open spec fn locked_of(&self, user: Seq<char>, asset: Seq<char>) -> int {
        let ui = find_user_spec(self.users@, user);
        if ui < 0 {
            0
        } else {
            let ai = find_asset_spec(self.users@[ui].assets@, asset);
            if ai < 0 {
                0
            } else {
                self.users@[ui].assets@[ai].bal.locked as int
            }
        }
    }

    /// An entry exists for this user and asset.
    pub open spec fn has_entry(&self, user: Seq<char>, asset: Seq<char>) -> bool {
        let ui = find_user_spec(self.users@, user);
        ui >= 0 && find_asset_spec(self.users@[ui].assets@, asset) >= 0
    }

    pub open spec fn has_user(&self, user: Seq<char>) -> bool {
        find_user_spec(self.users@, user) >= 0
    }

    pub fn new() -> (r: Ledger)
        ensures
            r.users@.len() == 0,
            forall|u: Seq<char>, a: Seq<char>| #[trigger] r.avail_of(u, a) == 0,
            forall|u: Seq<char>, a: Seq<char>| #[trigger] r.locked_of(u, a) == 0,
    {
        Ledger { users: Vec::new() }
    }

    /// Finds the user's entry by a linear scan.
    fn find_user(&self, user: &String) -> (r: Option<usize>)
        ensures
            match r {
                Some(i) => i as int == find_user_spec(self.users@, user@),
                None => find_user_spec(self.users@, user@) == -1,
            },
    {
        proof {
            lemma_find_user_spec(self.users@, user@);
        }
        let mut i: usize = 0;
        let n = self.users.len();
        while i < n
            invariant
                0 <= i <= n,
                n == self.users@.len(),
                forall|j: int| 0 <= j < i ==> (#[trigger] self.users@[j]).user_id@ != user@,
            decreases n - i,
        {
            if self.users[i].user_id.eq(user) {
                proof {
                    lemma_find_user_first(self.users@, user@, i as int);
                }
                return Some(i);
            }
            i = i + 1;
        }
        None
    }

    /// Finds the asset entry of one user by a linear scan.
    fn find_asset(assets: &Vec<AssetEntry>, asset: &str) -> (r: Option<usize>)
        ensures
            match r {
                Some(i) => i as int == find_asset_spec(assets@, asset@),
                None => find_asset_spec(assets@, asset@) == -1,
            },
    {
        proof {
            lemma_find_asset_spec(assets@, asset@);
        }
        let mut i: usize = 0;
        let n = assets.len();
        while i < n
            invariant
                0 <= i <= n,
                n == assets@.len(),
                forall|j: int| 0 <= j < i ==> (#[trigger] assets@[j]).asset@ != asset@,
            decreases n - i,
        {
            if crate::numfmt::str_eq_exec(assets[i].asset.as_str(), asset) {
                proof {
                    lemma_find_asset_first(assets@, asset@, i as int);
                }
                return Some(i);
            }
            i = i + 1;
        }
        None
    }

    /// The user's available and locked funds in this asset; zeros when no
    /// entry exists.
    pub fn balance_of(&self, user: &String, asset: &str) -> (r: (u128, u128))
        ensures
            r.0 == self.avail_of(user@, asset@),
            r.1 == self.locked_of(user@, asset@),
    {
        proof {
            lemma_find_user_spec(self.users@, user@);
        }
        match self.find_user(user) {
            Some(ui) => {
                proof {
                    lemma_find_asset_spec(self.users@[ui as int].assets@, asset@);
                }
                match Self::find_asset(&self.users[ui].assets, asset) {
                    Some(ai) => {
                        let b = self.users[ui].assets[ai].bal;
                        (b.available, b.locked)
                    },
                    None => (0, 0),
                }
            },
            None => (0, 0),
        }
    }

    /// Whether the user has any ledger entry at all.
    pub fn contains_user(&self, user: &String) -> (r: bool)
        ensures
            r == self.has_user(user@),
    {
        self.find_user(user).is_some()
    }

    /// Whether the user has an entry for this asset.
    pub fn contains_entry(&self, user: &String, asset: &str) -> (r: bool)
        ensures
            r == self.has_entry(user@, asset@),
    {
        proof {
            lemma_find_user_spec(self.users@, user@);
        }
        match self.find_user(user) {
            Some(ui) => Self::find_asset(&self.users[ui].assets, asset).is_some(),
            None => false,
        }
    }

    /// Credits the user's available funds, creating the user and asset
    /// entries when absent; the credit saturates at the type's limit.
    pub fn credit_available(&mut self, user: &String, asset: &str, amount: u128)
        ensures
            final(self).avail_of(user@, asset@) == sat_add(
                old(self).avail_of(user@, asset@),
                amount as int,
            ),
            final(self).locked_of(user@, asset@) == old(self).locked_of(user@, asset@),
            forall|u: Seq<char>, a: Seq<char>|
                u != user@ || a != asset@ ==> #[trigger] cell_view(final(self).users@, u, a)
                    == cell_view(old(self).users@, u, a),
    {
        proof {
            lemma_find_user_spec(self.users@, user@);
        }
        let ghost users0 = self.users@;
        match self.find_user(user) {
            Some(ui) => {
                let assets = &self.users[ui].assets;
                proof {
                    lemma_find_asset_spec(self.users@[ui as int].assets@, asset@);
                }
                match Self::find_asset(assets, asset) {
                    Some(ai) => {
                        let cur = self.users[ui].assets[ai].bal.available;
                        let newv = if cur > u128::MAX - amount {
                            u128::MAX
                        } else {
                            cur + amount
                        };
                        self.users[ui].assets[ai].bal.available = newv;
                        proof {
                            lemma_ledger_update_cell(
                                users0,
                                self.users@,
                                ui as int,
                                ai as int,
                                user@,
                                asset@,
                            );
                        }
                    },
                    None => {
                        let entry = AssetEntry {
                            asset: asset.to_owned(),
                            bal: Balance { available: amount, locked: 0 },
                        };
                        self.users[ui].assets.push(entry);
                        proof {
                            lemma_ledger_push_asset(
                                users0,
                                self.users@,
                                ui as int,
                                user@,
                                asset@,
                            );
                        }
                    },
                }
            },
            None => {
                let mut assets: Vec<AssetEntry> = Vec::new();
                assets.push(
                    AssetEntry {
                        asset: asset.to_owned(),
                        bal: Balance { available: amount, locked: 0 },
                    },
                );
                let entry = UserEntry { user_id: user.clone(), assets };
                self.users.push(entry);
                proof {
                    lemma_ledger_push_user(users0, self.users@, user@, asset@);
                }
            },
        }
    }

    /// Moves funds from available to locked when the available balance
    /// suffices; reports whether it did. Missing entries never suffice.
    pub fn lock_funds(&mut self, user: &String, asset: &str, amount: u128) -> (r: bool)
        ensures
            r == (old(self).has_entry(user@, asset@) && old(self).avail_of(user@, asset@)
                >= amount),
            r ==> final(self).avail_of(user@, asset@) == old(self).avail_of(user@, asset@)
                - amount && final(self).locked_of(user@, asset@) == sat_add(
                old(self).locked_of(user@, asset@),
                amount as int,
            ),
            !r ==> *final(self) == *old(self),
            forall|u: Seq<char>, a: Seq<char>|
                u != user@ || a != asset@ ==> #[trigger] cell_view(final(self).users@, u, a)
                    == cell_view(old(self).users@, u, a),
    {
        let ghost users0 = self.users@;
        let ui = match self.find_user(user) {
            Some(ui) => ui,
            None => {
                return false;
            },
        };
        proof {
            lemma_find_user_spec(users0, user@);
            lemma_find_asset_spec(self.users@[ui as int].assets@, asset@);
        }
        let ai = match Self::find_asset(&self.users[ui].assets, asset) {
            Some(ai) => ai,
            None => {
                return false;
            },
        };
        let cur = self.users[ui].assets[ai].bal.available;
        if cur < amount {
            return false;
        }
        let curl = self.users[ui].assets[ai].bal.locked;
        self.users[ui].assets[ai].bal.available = cur - amount;
        let newl = if curl > u128::MAX - amount {
            u128::MAX
        } else {
            curl + amount
        };
        self.users[ui].assets[ai].bal.locked = newl;
        proof {
            lemma_ledger_update_cell(users0, self.users@, ui as int, ai as int, user@, asset@);
        }
        true
    }

    /// Moves funds back from locked to available: exactly `amount` when
    /// the locked balance covers it, else everything that is locked.
    pub fn unlock_funds(&mut self, user: &String, asset: &str, amount: u128)
        ensures
            ({
                let moved = if old(self).locked_of(user@, asset@) >= amount {
                    amount as int
                } else {
                    old(self).locked_of(user@, asset@)
                };
                &&& final(self).locked_of(user@, asset@) == old(self).locked_of(user@, asset@)
                    - moved
                &&& final(self).avail_of(user@, asset@) == sat_add(
                    old(self).avail_of(user@, asset@),
                    moved,
                )
            }),
            !old(self).has_entry(user@, asset@) ==> *final(self) == *old(self),
            forall|u: Seq<char>, a: Seq<char>|
                u != user@ || a != asset@ ==> #[trigger] cell_view(final(self).users@, u, a)
                    == cell_view(old(self).users@, u, a),
    {
        let ghost users0 = self.users@;
        let ui = match self.find_user(user) {
            Some(ui) => ui,
            None => {
                return ;
            },
        };
        proof {
            lemma_find_user_spec(users0, user@);
            lemma_find_asset_spec(self.users@[ui as int].assets@, asset@);
        }
        let ai = match Self::find_asset(&self.users[ui].assets, asset) {
            Some(ai) => ai,
            None => {
                return ;
            },
        };
        let curl = self.users[ui].assets[ai].bal.locked;
        let cura = self.users[ui].assets[ai].bal.available;
        let moved = if curl >= amount {
            amount
        } else {
            curl
        };
        self.users[ui].assets[ai].bal.locked = curl - moved;
        let newa = if cura > u128::MAX - moved {
            u128::MAX
        } else {
            cura + moved
        };
        self.users[ui].assets[ai].bal.available = newa;
        proof {
            lemma_ledger_update_cell(users0, self.users@, ui as int, ai as int, user@, asset@);
        }
    }

    /// Takes funds out of the locked balance: exactly `amount` when it is
    /// covered, else everything that is locked; absent entries stay absent.
    pub fn debit_locked(&mut self, user: &String, asset: &str, amount: u128)
        ensures
            ({
                let moved = if old(self).locked_of(user@, asset@) >= amount {
                    amount as int
                } else {
                    old(self).locked_of(user@, asset@)
                };
                final(self).locked_of(user@, asset@) == old(self).locked_of(user@, asset@) - moved
            }),
            final(self).avail_of(user@, asset@) == old(self).avail_of(user@, asset@),
            !old(self).has_entry(user@, asset@) ==> *final(self) == *old(self),
            forall|u: Seq<char>, a: Seq<char>|
                u != user@ || a != asset@ ==> #[trigger] cell_view(final(self).users@, u, a)
                    == cell_view(old(self).users@, u, a),
    {
        let ghost users0 = self.users@;
        let ui = match self.find_user(user) {
            Some(ui) => ui,
            None => {
                return ;
            },
        };
        proof {
            lemma_find_user_spec(users0, user@);
            lemma_find_asset_spec(self.users@[ui as int].assets@, asset@);
        }
        let ai = match Self::find_asset(&self.users[ui].assets, asset) {
            Some(ai) => ai,
            None => {
                return ;
            },
        };
        let curl = self.users[ui].assets[ai].bal.locked;
        let moved = if curl >= amount {
            amount
        } else {
            curl
        };
        self.users[ui].assets[ai].bal.locked = curl - moved;
        proof {
            lemma_ledger_update_cell(users0, self.users@, ui as int, ai as int, user@, asset@);
        }
    }
}

/// Addition capped at the largest representable amount.
pub open spec fn sat_add(a: int, b: int) -> int {
    if a + b > u128::MAX {
        u128::MAX as int
    } else {
        a + b
    }
}

/// One user found by scanning: the prefix holds no match.
proof fn lemma_find_user_first(users: Seq<UserEntry>, user: Seq<char>, i: int)
    requires
        0 <= i < users.len(),
        users[i].user_id@ == user,
        forall|j: int| 0 <= j < i ==> (#[trigger] users[j]).user_id@ != user,
    ensures
        find_user_spec(users, user) == i,
    decreases i,
{
    if i > 0 {
        assert(forall|j: int|
            0 <= j < users.drop_first().len() ==> (#[trigger] users.drop_first()[j]) == users[
                j + 1
            ]);
        lemma_find_user_first(users.drop_first(), user, i - 1);
    }
}

proof fn lemma_find_asset_first(assets: Seq<AssetEntry>, asset: Seq<char>, i: int)
    requires
        0 <= i < assets.len(),
        assets[i].asset@ == asset,
        forall|j: int| 0 <= j < i ==> (#[trigger] assets[j]).asset@ != asset,
    ensures
        find_asset_spec(assets, asset) == i,
    decreases i,
{
    if i > 0 {
        assert(forall|j: int|
            0 <= j < assets.drop_first().len() ==> (#[trigger] assets.drop_first()[j]) == assets[
                j + 1
            ]);
        lemma_find_asset_first(assets.drop_first(), asset, i - 1);
    }
}

/// Finding is stable when only entries elsewhere change their balances.
proof fn lemma_find_user_same_ids(a: Seq<UserEntry>, b: Seq<UserEntry>, user: Seq<char>)
    requires
        a.len() == b.len(),
        forall|i: int| 0 <= i < a.len() ==> (#[trigger] a[i]).user_id@ == b[i].user_id@,
    ensures
        find_user_spec(a, user) == find_user_spec(b, user),
    decreases a.len(),
{
    if a.len() > 0 {
        assert(forall|i: int|
            0 <= i < a.drop_first().len() ==> (#[trigger] a.drop_first()[i]) == a[i + 1]);
        assert(forall|i: int|
            0 <= i < b.drop_first().len() ==> (#[trigger] b.drop_first()[i]) == b[i + 1]);
        assert forall|i: int|
            0 <= i < a.drop_first().len() implies (#[trigger] a.drop_first()[i]).user_id@
            == b.drop_first()[i].user_id@ by {
            assert(a[i + 1].user_id@ == b[i + 1].user_id@);
        }
        lemma_find_user_same_ids(a.drop_first(), b.drop_first(), user);
    }
}

proof fn lemma_find_asset_same_ids(a: Seq<AssetEntry>, b: Seq<AssetEntry>, asset: Seq<char>)
    requires
        a.len() == b.len(),
        forall|i: int| 0 <= i < a.len() ==> (#[trigger] a[i]).asset@ == b[i].asset@,
    ensures
        find_asset_spec(a, asset) == find_asset_spec(b, asset),
    decreases a.len(),
{
    if a.len() > 0 {
        assert(forall|i: int|
            0 <= i < a.drop_first().len() ==> (#[trigger] a.drop_first()[i]) == a[i + 1]);
        assert(forall|i: int|
            0 <= i < b.drop_first().len() ==> (#[trigger] b.drop_first()[i]) == b[i + 1]);
        assert forall|i: int|
            0 <= i < a.drop_first().len() implies (#[trigger] a.drop_first()[i]).asset@
            == b.drop_first()[i].asset@ by {
            assert(a[i + 1].asset@ == b[i + 1].asset@);
        }
        lemma_find_asset_same_ids(a.drop_first(), b.drop_first(), asset);
    }
}

/// Changing one balance cell leaves every other user-asset pair's view
/// unchanged.
proof fn lemma_ledger_update_cell(
    users0: Seq<UserEntry>,
    users1: Seq<UserEntry>,
    ui: int,
    ai: int,
    user: Seq<char>,
    asset: Seq<char>,
)
    requires
        0 <= ui < users0.len(),
        users0.len() == users1.len(),
        0 <= ai < users0[ui].assets@.len(),
        users0[ui].assets@.len() == users1[ui].assets@.len(),
        forall|i: int| 0 <= i < users0.len() && i != ui ==> (#[trigger] users1[i]) == users0[i],
        users1[ui].user_id@ == users0[ui].user_id@,
        forall|j: int|
            0 <= j < users0[ui].assets@.len() && j != ai ==> (#[trigger] users1[ui].assets@[j])
                == users0[ui].assets@[j],
        users1[ui].assets@[ai].asset@ == users0[ui].assets@[ai].asset@,
        find_user_spec(users0, user) == ui,
        find_asset_spec(users0[ui].assets@, asset) == ai,
    ensures
        find_user_spec(users1, user) == ui,
        find_asset_spec(users1[ui].assets@, asset) == ai,
        forall|u: Seq<char>, a: Seq<char>|
            u != user || a != asset ==> cell_view(users1, u, a) == #[trigger] cell_view(
                users0,
                u,
                a,
            ),
{
    assert(forall|i: int|
        0 <= i < users0.len() ==> (#[trigger] users0[i]).user_id@ == users1[i].user_id@);
    lemma_find_user_same_ids(users0, users1, user);
    assert(forall|j: int|
        0 <= j < users0[ui].assets@.len() ==> (#[trigger] users0[ui].assets@[j]).asset@ == users1[
            ui
        ].assets@[j].asset@);
    lemma_find_asset_same_ids(users0[ui].assets@, users1[ui].assets@, asset);
    assert forall|u: Seq<char>, a: Seq<char>| u != user || a != asset implies cell_view(
        users1,
        u,
        a,
    ) == #[trigger] cell_view(users0, u, a) by {
        lemma_find_user_same_ids(users0, users1, u);
        lemma_find_user_spec(users0, u);
        let vi = find_user_spec(users0, u);
        if vi >= 0 {
            if vi == ui {
                lemma_find_user_spec(users0, user);
                assert(u == user);
                lemma_find_asset_same_ids(users0[ui].assets@, users1[ui].assets@, a);
                lemma_find_asset_spec(users0[ui].assets@, a);
                let vj = find_asset_spec(users0[ui].assets@, a);
                if vj >= 0 {
                    if vj == ai {
                        lemma_find_asset_spec(users0[ui].assets@, a);
                        lemma_find_asset_spec(users0[ui].assets@, asset);
                        assert(a == asset);
                        assert(false);
                    } else {
                        assert(users1[ui].assets@[vj] == users0[ui].assets@[vj]);
                    }
                }
            } else {
                assert(users1[vi] == users0[vi]);
                lemma_find_asset_same_ids(users0[vi].assets@, users1[vi].assets@, a);
            }
        }
    }
}

/// The pair a balance read depends on.
pub open spec fn cell_view(users: Seq<UserEntry>, user: Seq<char>, asset: Seq<char>) -> (int, int) {
    let ui = find_user_spec(users, user);
    if ui < 0 {
        (0, 0)
    } else {
        let ai = find_asset_spec(users[ui].assets@, asset);
        if ai < 0 {
            (0, 0)
        } else {
            (users[ui].assets@[ai].bal.available as int, users[ui].assets@[ai].bal.locked as int)
        }
    }
}

/// Appending a fresh asset entry to one user only adds that pair.
proof fn lemma_ledger_push_asset(
    users0: Seq<UserEntry>,
    users1: Seq<UserEntry>,
    ui: int,
    user: Seq<char>,
    asset: Seq<char>,
)
    requires
        0 <= ui < users0.len(),
        users0.len() == users1.len(),
        forall|i: int| 0 <= i < users0.len() && i != ui ==> (#[trigger] users1[i]) == users0[i],
        users1[ui].user_id@ == users0[ui].user_id@,
        users1[ui].assets@ == users0[ui].assets@.push(users1[ui].assets@.last()),
        users1[ui].assets@.last().asset@ == asset,
        find_user_spec(users0, user) == ui,
        find_asset_spec(users0[ui].assets@, asset) == -1,
    ensures
        find_user_spec(users1, user) == ui,
        find_asset_spec(users1[ui].assets@, asset) == users0[ui].assets@.len(),
        forall|u: Seq<char>, a: Seq<char>|
            u != user || a != asset ==> cell_view(users1, u, a) == #[trigger] cell_view(
                users0,
                u,
                a,
            ),
{
    assert(forall|i: int|
        0 <= i < users0.len() ==> (#[trigger] users0[i]).user_id@ == users1[i].user_id@);
    lemma_find_user_same_ids(users0, users1, user);
    lemma_find_asset_spec(users0[ui].assets@, asset);
    lemma_find_asset_append(users0[ui].assets@, users1[ui].assets@.last(), asset);
    assert forall|u: Seq<char>, a: Seq<char>| u != user || a != asset implies cell_view(
        users1,
        u,
        a,
    ) == #[trigger] cell_view(users0, u, a) by {
        lemma_find_user_same_ids(users0, users1, u);
        lemma_find_user_spec(users0, u);
        let vi = find_user_spec(users0, u);
        if vi >= 0 {
            if vi == ui {
                lemma_find_user_spec(users0, user);
                assert(u == user);
                lemma_find_asset_append(users0[ui].assets@, users1[ui].assets@.last(), a);
                lemma_find_asset_spec(users0[ui].assets@, a);
                let vj = find_asset_spec(users0[ui].assets@, a);
                if vj >= 0 {
                    assert(users1[ui].assets@[vj] == users0[ui].assets@[vj]);
                } else {
                    if find_asset_spec(users1[ui].assets@, a) >= 0 {
                        lemma_find_asset_spec(users1[ui].assets@, a);
                        assert(find_asset_spec(users1[ui].assets@, a)
                            == users0[ui].assets@.len());
                        assert(a == asset);
                        assert(false);
                    }
                }
            } else {
                assert(users1[vi] == users0[vi]);
            }
        }
    }
}

/// Appending an entry leaves earlier finds alone; a miss finds the new
/// entry exactly when it matches.
proof fn lemma_find_asset_append(assets: Seq<AssetEntry>, e: AssetEntry, asset: Seq<char>)
    ensures
        find_asset_spec(assets, asset) >= 0 ==> find_asset_spec(assets.push(e), asset)
            == find_asset_spec(assets, asset),
        find_asset_spec(assets, asset) == -1 && e.asset@ == asset ==> find_asset_spec(
            assets.push(e),
            asset,
        ) == assets.len(),
        find_asset_spec(assets, asset) == -1 && e.asset@ != asset ==> find_asset_spec(
            assets.push(e),
            asset,
        ) == -1,
    decreases assets.len(),
{
    let p = assets.push(e);
    if assets.len() == 0 {
        assert(p[0] == e);
        assert(p.drop_first() =~= Seq::<AssetEntry>::empty());
        assert(find_asset_spec(assets, asset) == -1);
        if e.asset@ == asset {
            assert(find_asset_spec(p, asset) == 0);
        } else {
            assert(find_asset_spec(p.drop_first(), asset) == -1);
            assert(find_asset_spec(p, asset) == -1);
        }
    } else {
        assert(p[0] == assets[0]);
        assert(p.drop_first() =~= assets.drop_first().push(e));
        lemma_find_asset_append(assets.drop_first(), e, asset);
        assert(find_asset_spec(p.drop_first(), asset) == find_asset_spec(
            assets.drop_first().push(e),
            asset,
        ));
        if assets[0].asset@ == asset {
            assert(find_asset_spec(p, asset) == 0);
        } else {
            assert(find_asset_spec(assets, asset) == (if find_asset_spec(
                assets.drop_first(),
                asset,
            ) < 0 {
                -1int
            } else {
                find_asset_spec(assets.drop_first(), asset) + 1
            }));
            assert(find_asset_spec(p, asset) == (if find_asset_spec(p.drop_first(), asset) < 0 {
                -1int
            } else {
                find_asset_spec(p.drop_first(), asset) + 1
            }));
        }
    }
}

proof fn lemma_find_user_append(users: Seq<UserEntry>, e: UserEntry, user: Seq<char>)
    ensures
        find_user_spec(users, user) >= 0 ==> find_user_spec(users.push(e), user) == find_user_spec(
            users,
            user,
        ),
        find_user_spec(users, user) == -1 && e.user_id@ == user ==> find_user_spec(
            users.push(e),
            user,
        ) == users.len(),
        find_user_spec(users, user) == -1 && e.user_id@ != user ==> find_user_spec(
            users.push(e),
            user,
        ) == -1,
    decreases users.len(),
{
    let p = users.push(e);
    if users.len() == 0 {
        assert(p[0] == e);
        assert(p.drop_first() =~= Seq::<UserEntry>::empty());
        assert(find_user_spec(users, user) == -1);
        if e.user_id@ == user {
            assert(find_user_spec(p, user) == 0);
        } else {
            assert(find_user_spec(p.drop_first(), user) == -1);
            assert(find_user_spec(p, user) == -1);
        }
    } else {
        assert(p[0] == users[0]);
        assert(p.drop_first() =~= users.drop_first().push(e));
        lemma_find_user_append(users.drop_first(), e, user);
        assert(find_user_spec(p.drop_first(), user) == find_user_spec(
            users.drop_first().push(e),
            user,
        ));
        if users[0].user_id@ == user {
            assert(find_user_spec(p, user) == 0);
        } else {
            assert(find_user_spec(users, user) == (if find_user_spec(users.drop_first(), user)
                < 0 {
                -1int
            } else {
                find_user_spec(users.drop_first(), user) + 1
            }));
            assert(find_user_spec(p, user) == (if find_user_spec(p.drop_first(), user) < 0 {
                -1int
            } else {
                find_user_spec(p.drop_first(), user) + 1
            }));
        }
    }
}

/// Appending a fresh user only adds that user's single pair.
proof fn lemma_ledger_push_user(
    users0: Seq<UserEntry>,
    users1: Seq<UserEntry>,
    user: Seq<char>,
    asset: Seq<char>,
)
    requires
        users1 == users0.push(users1.last()),
        users1.last().user_id@ == user,
        users1.last().assets@.len() == 1,
        users1.last().assets@[0].asset@ == asset,
        find_user_spec(users0, user) == -1,
    ensures
        find_user_spec(users1, user) == users0.len(),
        find_asset_spec(users1[users0.len() as int].assets@, asset) == 0,
        forall|u: Seq<char>, a: Seq<char>|
            u != user || a != asset ==> cell_view(users1, u, a) == #[trigger] cell_view(
                users0,
                u,
                a,
            ),
{
    lemma_find_user_append(users0, users1.last(), user);
    assert forall|u: Seq<char>, a: Seq<char>| u != user || a != asset implies cell_view(
        users1,
        u,
        a,
    ) == #[trigger] cell_view(users0, u, a) by {
        lemma_find_user_append(users0, users1.last(), u);
        lemma_find_user_spec(users0, u);
        let vi = find_user_spec(users0, u);
        if vi >= 0 {
            assert(users1[vi] == users0[vi]);
            lemma_find_asset_same_ids(users0[vi].assets@, users1[vi].assets@, a);
        } else {
            if u == user {
                let k = users0.len() as int;
                assert(find_user_spec(users1, u) == k);
                assert(a != asset);
                lemma_find_asset_spec(users1[k].assets@, a);
                if find_asset_spec(users1[k].assets@, a) >= 0 {
                    assert(users1[k].assets@[find_asset_spec(users1[k].assets@, a)].asset@ == a);
                    assert(find_asset_spec(users1[k].assets@, a) == 0);
                    assert(false);
                }
            }
        }
    }
}

/// A balance read is one component of the cell view.
pub proof fn lemma_cell_reads(l: &Ledger, u: Seq<char>, a: Seq<char>)
    ensures
        l.avail_of(u, a) == cell_view(l.users@, u, a).0,
        l.locked_of(u, a) == cell_view(l.users@, u, a).1,
{
}


/// The whole ledger as one total map: every (user, asset) pair to its
/// (available, locked) cell, absent entries reading as zeros.
pub open spec fn lmap(users: Seq<UserEntry>) -> Map<(Seq<char>, Seq<char>), (int, int)> {
    Map::new(
        |k: (Seq<char>, Seq<char>)| true,
        |k: (Seq<char>, Seq<char>)| cell_view(users, k.0, k.1),
    )
}

/// When one cell changed and every other kept its view, the whole map is
/// the old map with that one cell replaced.
pub proof fn lemma_map_step(
    pre: Seq<UserEntry>,
    post: Seq<UserEntry>,
    user: Seq<char>,
    asset: Seq<char>,
)
    requires
        forall|u: Seq<char>, a: Seq<char>|
            u != user || a != asset ==> #[trigger] cell_view(post, u, a) == cell_view(pre, u, a),
    ensures
        lmap(post) == lmap(pre).insert((user, asset), cell_view(post, user, asset)),
{
    let m1 = lmap(post);
    let m2 = lmap(pre).insert((user, asset), cell_view(post, user, asset));
    assert forall|k: (Seq<char>, Seq<char>)| #[trigger] m1[k] == m2[k] by {
        if k.0 != user || k.1 != asset {
            assert(cell_view(post, k.0, k.1) == cell_view(pre, k.0, k.1));
        }
    }
    assert(m1 =~= m2);
}

/// A balance read is each component of the ledger map's cell.
pub proof fn lemma_lmap_reads(l: &Ledger, u: Seq<char>, a: Seq<char>)
    ensures
        lmap(l.users@)[(u, a)] == (l.avail_of(u, a), l.locked_of(u, a)),
{
}

/// A credit to available funds, capped at the type's limit.
pub open spec fn map_credit(
    m: Map<(Seq<char>, Seq<char>), (int, int)>,
    user: Seq<char>,
    asset: Seq<char>,
    amount: int,
) -> Map<(Seq<char>, Seq<char>), (int, int)> {
    let c = m[(user, asset)];
    m.insert((user, asset), (sat_add(c.0, amount), c.1))
}

/// A debit from locked funds: exactly `amount` when covered, else all of
/// the locked balance.
pub open spec fn map_debit_locked(
    m: Map<(Seq<char>, Seq<char>), (int, int)>,
    user: Seq<char>,
    asset: Seq<char>,
    amount: int,
) -> Map<(Seq<char>, Seq<char>), (int, int)> {
    let c = m[(user, asset)];
    let moved = if c.1 >= amount {
        amount
    } else {
        c.1
    };
    m.insert((user, asset), (c.0, c.1 - moved))
}

/// A move from locked back to available: exactly `amount` when covered,
/// else all of the locked balance; the credit caps at the type's limit.
pub open spec fn map_unlock(
    m: Map<(Seq<char>, Seq<char>), (int, int)>,
    user: Seq<char>,
    asset: Seq<char>,
    amount: int,
) -> Map<(Seq<char>, Seq<char>), (int, int)> {
    let c = m[(user, asset)];
    let moved = if c.1 >= amount {
        amount
    } else {
        c.1
    };
    m.insert((user, asset), (sat_add(c.0, moved), c.1 - moved))
}

/// A move from available into locked; the caller owes `amount` covered.
pub open spec fn map_lock(
    m: Map<(Seq<char>, Seq<char>), (int, int)>,
    user: Seq<char>,
    asset: Seq<char>,
    amount: int,
) -> Map<(Seq<char>, Seq<char>), (int, int)> {
    let c = m[(user, asset)];
    m.insert((user, asset), (c.0 - amount, sat_add(c.1, amount)))
}

} // verus!
