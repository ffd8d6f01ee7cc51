# iq

Interactive jq REPL: a filter is run while it is typed, its results are shown in colour, and field
names are completed. The filter engine is [qj](https://github.com/6/qj).

```
iq file.json
cat data.json | iq
```

## Keys

| key             | action                                        |
| --------------- | --------------------------------------------- |
| tab             | select the next completion                    |
| enter           | accept the completion, else remember filter   |
| up/down         | select a completion, else history (no filter) |
| left/right      | move the cursor                               |
| home/end        | cursor to the ends of the filter              |
| backspace/del   | delete left/right                             |
| pgup/pgdn       | scroll by a page                              |
| mouse wheel     | scroll                                        |
| ctrl+c / ctrl+d | quit                                          |
| esc             | close the completions, else quit              |
| f1              | debug overlay                                 |

## Layout

`src/` is the library, verified with Verus:

- `app`, `edit`, `event`: the state of a session and what each key does to it;
- `complete`, `path`, `sort`: completions;
- `engine`, `load`, `json`: documents, running filters, writing values;
- `ansi`, `lines`, `screen`: what is drawn;
- `history`: the history file;
- `text`: text at byte offsets;
- `laws`: what holds of a session as a whole.

What is taken on trust of `qj`, `ratatui` and the standard library stands in the contracts of the
few functions that call them, mostly in `engine`.

`app/` is the program around it: arguments, files, the terminal, and the thread that runs filters.
`tests/` holds the tests.
