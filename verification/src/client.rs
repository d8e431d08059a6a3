use vstd::prelude::*;
use crate::players::CountryAssignmentResponse;

verus! {

/// The screens of the client.
#[derive(Clone, Copy, PartialEq, Eq, Structural, Debug, Hash)]
pub enum AppState {
    ConnectingMenu,
    Lobby,
    Game,
}

/// The screen the client shows and the country it plays, once it has one.
#[derive(Clone, Copy, PartialEq, Eq, Structural, Debug)]
pub struct ClientSession {
    pub state: AppState,
    pub playing_country: Option<u64>,
}

impl ClientSession {
    /// A client starts at the connecting menu, playing no country.
    pub fn new() -> (res: Self)
        ensures
            res.state == AppState::ConnectingMenu,
            res.playing_country is None,
    {
        ClientSession { state: AppState::ConnectingMenu, playing_country: None }
    }

    /// Once connected, the client chooses a country in the lobby.
    pub fn connected(&mut self)
        ensures
            final(self).state == AppState::Lobby,
            final(self).playing_country == old(self).playing_country,
    {
        self.state = AppState::Lobby;
    }

    /// The server answered the request for a country: on success the client plays it
    /// and the game starts; a busy country changes nothing. Returns whether the country
    /// was busy.
    pub fn assignment_response(&mut self, response: CountryAssignmentResponse) -> (busy: bool)
        ensures
            match response {
                CountryAssignmentResponse::Success(c) => {
                    &&& !busy
                    &&& final(self).playing_country == Some(c)
                    &&& final(self).state == AppState::Game
                },
                CountryAssignmentResponse::CountryIsBusy => {
                    &&& busy
                    &&& *final(self) == *old(self)
                },
            },
    {
        match response {
            CountryAssignmentResponse::Success(c) => {
                self.playing_country = Some(c);
                self.state = AppState::Game;
                false
            },
            CountryAssignmentResponse::CountryIsBusy => true,
        }
    }
}

/// A click on `clicked`: when it is a division it becomes selected, alone unless
/// shift is held, in which case it joins the selection. Clicks elsewhere change
/// nothing.
pub fn select_division(selected: &Vec<u64>, clicked: u64, is_division: bool, shift: bool) -> (res: Vec<
    u64,
>)
    ensures
        !is_division ==> res@ == selected@,
        is_division && !shift ==> res@ == seq![clicked],
        is_division && shift ==> res@ == if selected@.contains(clicked) {
            selected@
        } else {
            selected@.push(clicked)
        },
{
    let mut res: Vec<u64> = Vec::new();
    if !is_division {
        let mut i: usize = 0;
        while i < selected.len()
            invariant
                i <= selected@.len(),
                res@ == selected@.take(i as int),
            decreases selected@.len() - i,
        {
            res.push(selected[i]);
            assert(selected@.take(i + 1) =~= selected@.take(i as int).push(selected@[i as int]));
            i += 1;
        }
        assert(selected@.take(selected@.len() as int) =~= selected@);
        return res;
    }
    if shift {
        let mut i: usize = 0;
        let mut present = false;
        while i < selected.len()
            invariant
                i <= selected@.len(),
                res@ == selected@.take(i as int),
                present == selected@.take(i as int).contains(clicked),
            decreases selected@.len() - i,
        {
            let e = selected[i];
            assert(selected@.take(i + 1) =~= selected@.take(i as int).push(e));
            proof {
                let t = selected@.take(i + 1);
                if e == clicked {
                    assert(t[i as int] == clicked);
                }
                if t.contains(clicked) && e != clicked {
                    let k = choose|k: int| 0 <= k < t.len() && t[k] == clicked;
                    assert(selected@.take(i as int)[k] == clicked);
                }
                if selected@.take(i as int).contains(clicked) {
                    let k = choose|k: int| 0 <= k < i && selected@.take(i as int)[k] == clicked;
                    assert(t[k] == clicked);
                }
            }
            if e == clicked {
                present = true;
            }
            res.push(e);
            i += 1;
        }
        assert(selected@.take(selected@.len() as int) =~= selected@);
        if !present {
            res.push(clicked);
        }
    } else {
        res.push(clicked);
        assert(res@ =~= seq![clicked]);
    }
    res
}

/// Escape drops the selection when exactly one division is selected.
pub fn cancel_selection(selected: &Vec<u64>, escape: bool) -> (res: bool)
    ensures
        res == (escape && selected@.len() == 1),
{
    escape && selected.len() == 1
}

} // verus!
