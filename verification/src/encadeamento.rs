//! Ligações entre células de uma arena e a ordem dos seus endereços: as
//! definições e os lemas que as duas listas partilham.

use vstd::prelude::*;

verus! {

/// Uma célula que guarda o endereço, na arena, da célula que a segue.
pub trait CelulaEncadeada {
    spec fn seguinte_na_arena(&self) -> usize;
}

/// Um endereço presente numa sequência tem uma posição válida nela.
pub proof fn lema_posicao(ordem: Seq<usize>, e: usize)
    requires
        ordem.contains(e),
    ensures
        0 <= ordem.index_of(e) < ordem.len(),
        ordem[ordem.index_of(e)] == e,
{
}

/// Numa sequência sem repetições, a posição de um endereço é a única em que ele aparece.
pub proof fn lema_posicao_unica(ordem: Seq<usize>, j: int)
    requires
        ordem.no_duplicates(),
        0 <= j < ordem.len(),
    ensures
        ordem.index_of(ordem[j]) == j,
{
    assert(ordem.contains(ordem[j]));
}

/// Inserir um endereço novo numa sequência sem repetições não cria repetições.
pub proof fn lema_insere_sem_repeticao(ordem: Seq<usize>, k: int, a: usize)
    requires
        ordem.no_duplicates(),
        0 <= k <= ordem.len(),
        !ordem.contains(a),
    ensures
        ordem.insert(k, a).no_duplicates(),
{
    let o2 = ordem.insert(k, a);
    assert forall|i: int, j: int| 0 <= i < o2.len() && 0 <= j < o2.len() && i != j implies o2[i] != o2[j] by {
        if i != k && j != k {
            let i0 = if i < k { i } else { i - 1 };
            let j0 = if j < k { j } else { j - 1 };
            assert(o2[i] == ordem[i0]);
            assert(o2[j] == ordem[j0]);
        } else if i == k {
            let j0 = if j < k { j } else { j - 1 };
            assert(o2[j] == ordem[j0]);
        } else {
            let i0 = if i < k { i } else { i - 1 };
            assert(o2[i] == ordem[i0]);
        }
    }
}

/// Remover uma posição de uma sequência sem repetições não cria repetições.
pub proof fn lema_remove_sem_repeticao(ordem: Seq<usize>, k: int)
    requires
        ordem.no_duplicates(),
        0 <= k < ordem.len(),
    ensures
        ordem.remove(k).no_duplicates(),
{
    let o2 = ordem.remove(k);
    assert forall|i: int, j: int| 0 <= i < o2.len() && 0 <= j < o2.len() && i != j implies o2[i] != o2[j] by {
        let i0 = if i < k { i } else { i + 1 };
        let j0 = if j < k { j } else { j + 1 };
        assert(o2[i] == ordem[i0]);
        assert(o2[j] == ordem[j0]);
    }
}

/// Cada célula de `ordem`, exceto a última, aponta, na arena `celulas`, para a
/// que a segue. O que a última guarda não entra aqui.
pub open spec fn ligada<C: CelulaEncadeada>(celulas: Seq<C>, ordem: Seq<usize>) -> bool {
    forall|i: int|
        0 <= i < ordem.len() - 1 ==> (#[trigger] celulas[ordem[i] as int]).seguinte_na_arena() == ordem[i + 1]
}

/// Inserir a célula `a` logo após a posição `k` mantém as ligações, quando a
/// célula de `k` passa a apontar para `a` e `a` para a antiga seguinte.
pub proof fn lema_ligacoes_inserir<C: CelulaEncadeada>(
    antes: Seq<C>,
    depois: Seq<C>,
    ordem: Seq<usize>,
    k: int,
    a: usize,
)
    requires
        ligada(antes, ordem),
        ordem.no_duplicates(),
        0 <= k < ordem.len(),
        !ordem.contains(a),
        forall|i: int| 0 <= i < ordem.len() ==> #[trigger] ordem[i] < antes.len(),
        antes.len() <= depois.len(),
        a < depois.len(),
        k + 1 < ordem.len() ==> depois[a as int].seguinte_na_arena() == ordem[k + 1],
        depois[ordem[k] as int].seguinte_na_arena() == a,
        forall|j: int| 0 <= j < antes.len() && j != ordem[k] && j != a
            ==> (#[trigger] depois[j].seguinte_na_arena()) == antes[j].seguinte_na_arena(),
    ensures
        ligada(depois, ordem.insert(k + 1, a)),
{
    let o2 = ordem.insert(k + 1, a);
    assert forall|i: int| 0 <= i < o2.len() - 1 implies (#[trigger] depois[o2[i] as int]).seguinte_na_arena()
        == o2[i + 1] by {
        if i < k {
            assert(o2[i] == ordem[i]);
            assert(ordem[i] != ordem[k]);
            assert(ordem[i] != a);
            assert(depois[ordem[i] as int].seguinte_na_arena() == antes[ordem[i] as int].seguinte_na_arena());
            assert(antes[ordem[i] as int].seguinte_na_arena() == ordem[i + 1]);
            assert(o2[i + 1] == ordem[i + 1]);
        } else if i == k {
            assert(o2[i] == ordem[k]);
            assert(o2[k + 1] == a);
        } else if i == k + 1 {
            assert(o2[i] == a);
            assert(o2[k + 2] == ordem[k + 1]);
        } else {
            assert(o2[i] == ordem[i - 1]);
            assert(ordem[i - 1] != ordem[k]);
            assert(ordem[i - 1] != a);
            assert(depois[ordem[i - 1] as int].seguinte_na_arena() == antes[ordem[i - 1] as int].seguinte_na_arena());
            assert(antes[ordem[i - 1] as int].seguinte_na_arena() == ordem[i]);
            assert(o2[i + 1] == ordem[i]);
        }
    }
}

/// Remover a célula da posição `k + 1`, fazendo a de `k` apontar para a
/// seguinte da removida, mantém as ligações.
pub proof fn lema_ligacoes_remover<C: CelulaEncadeada>(
    antes: Seq<C>,
    depois: Seq<C>,
    ordem: Seq<usize>,
    k: int,
)
    requires
        ligada(antes, ordem),
        ordem.no_duplicates(),
        0 <= k < ordem.len() - 1,
        forall|i: int| 0 <= i < ordem.len() ==> #[trigger] ordem[i] < antes.len(),
        depois.len() == antes.len(),
        k + 2 < ordem.len() ==> depois[ordem[k] as int].seguinte_na_arena() == ordem[k + 2],
        forall|j: int| 0 <= j < antes.len() && j != ordem[k]
            ==> (#[trigger] depois[j].seguinte_na_arena()) == antes[j].seguinte_na_arena(),
    ensures
        ligada(depois, ordem.remove(k + 1)),
{
    let o2 = ordem.remove(k + 1);
    assert forall|i: int| 0 <= i < o2.len() - 1 implies (#[trigger] depois[o2[i] as int]).seguinte_na_arena()
        == o2[i + 1] by {
        if i < k {
            assert(o2[i] == ordem[i]);
            assert(ordem[i] != ordem[k]);
            assert(depois[ordem[i] as int].seguinte_na_arena() == antes[ordem[i] as int].seguinte_na_arena());
            assert(antes[ordem[i] as int].seguinte_na_arena() == ordem[i + 1]);
            assert(o2[i + 1] == ordem[i + 1]);
        } else if i == k {
            assert(o2[i] == ordem[k]);
            assert(o2[k + 1] == ordem[k + 2]);
        } else {
            assert(o2[i] == ordem[i + 1]);
            assert(ordem[i + 1] != ordem[k]);
            assert(depois[ordem[i + 1] as int].seguinte_na_arena() == antes[ordem[i + 1] as int].seguinte_na_arena());
            assert(antes[ordem[i + 1] as int].seguinte_na_arena() == ordem[i + 2]);
            assert(o2[i + 1] == ordem[i + 2]);
        }
    }
}

/// A posição de um endereço antigo depois de se inserir, na posição `k`, um
/// endereço novo: a mesma antes de `k`, uma a mais a partir de `k`.
pub proof fn lema_posicao_apos_inserir(ordem: Seq<usize>, k: int, a: usize, f: usize)
    requires
        ordem.no_duplicates(),
        0 <= k <= ordem.len(),
        !ordem.contains(a),
        ordem.contains(f),
    ensures
        ordem.insert(k, a).contains(f),
        ordem.insert(k, a).index_of(f) == (if ordem.index_of(f) < k {
            ordem.index_of(f)
        } else {
            ordem.index_of(f) + 1
        }),
{
    let j = ordem.index_of(f);
    let o2 = ordem.insert(k, a);
    let j2 = if j < k { j } else { j + 1 };
    assert(o2[j2] == f);
    lema_insere_sem_repeticao(ordem, k, a);
    lema_posicao_unica(o2, j2);
}

/// A posição de um endereço que fica depois de se remover a posição `k`: a
/// mesma antes de `k`, uma a menos depois de `k`.
pub proof fn lema_posicao_apos_remover(ordem: Seq<usize>, k: int, f: usize)
    requires
        ordem.no_duplicates(),
        0 <= k < ordem.len(),
        ordem.contains(f),
        f != ordem[k],
    ensures
        ordem.remove(k).contains(f),
        ordem.remove(k).index_of(f) == (if ordem.index_of(f) < k {
            ordem.index_of(f)
        } else {
            ordem.index_of(f) - 1
        }),
{
    let j = ordem.index_of(f);
    let o2 = ordem.remove(k);
    let j2 = if j < k { j } else { j - 1 };
    assert(o2[j2] == f);
    lema_remove_sem_repeticao(ordem, k);
    lema_posicao_unica(o2, j2);
}

/// Nenhum endereço livre está entre os endereços em uso.
pub open spec fn livres_fora(livres: Seq<usize>, ordem: Seq<usize>) -> bool {
    forall|i: int| 0 <= i < livres.len() ==> !ordem.contains(#[trigger] livres[i])
}

/// Passar a usar um endereço que não está entre os livres mantém os livres fora de uso.
pub proof fn lema_ocupar(livres: Seq<usize>, ordem: Seq<usize>, k: int, a: usize)
    requires
        livres_fora(livres, ordem),
        !livres.contains(a),
        0 <= k <= ordem.len(),
    ensures
        livres_fora(livres, ordem.insert(k, a)),
{
    let o2 = ordem.insert(k, a);
    assert forall|i: int| 0 <= i < livres.len() implies !o2.contains(#[trigger] livres[i]) by {
        if o2.contains(livres[i]) {
            let j = o2.index_of(livres[i]);
            assert(o2[j] == livres[i]);
            if j < k {
                assert(ordem[j] == livres[i]);
            } else if j > k {
                assert(ordem[j - 1] == livres[i]);
            }
        }
    }
}

/// Tirar de uso o endereço da posição `k` e guardá-lo entre os livres mantém
/// os livres sem repetições e fora de uso.
pub proof fn lema_liberar(livres: Seq<usize>, ordem: Seq<usize>, k: int)
    requires
        livres_fora(livres, ordem),
        livres.no_duplicates(),
        ordem.no_duplicates(),
        0 <= k < ordem.len(),
    ensures
        livres.push(ordem[k]).no_duplicates(),
        livres_fora(livres.push(ordem[k]), ordem.remove(k)),
{
    let l2 = livres.push(ordem[k]);
    let o2 = ordem.remove(k);
    assert(ordem.contains(ordem[k]));
    assert forall|i: int, j: int| 0 <= i < l2.len() && 0 <= j < l2.len() && i != j implies l2[i] != l2[j] by {
        if i == livres.len() {
            assert(!ordem.contains(livres[j]));
        } else if j == livres.len() {
            assert(!ordem.contains(livres[i]));
        }
    }
    assert forall|i: int| 0 <= i < l2.len() implies !o2.contains(#[trigger] l2[i]) by {
        if o2.contains(l2[i]) {
            let j = o2.index_of(l2[i]);
            let j0 = if j < k { j } else { j + 1 };
            assert(o2[j] == ordem[j0]);
            if i == livres.len() {
                assert(ordem[j0] == ordem[k]);
            } else {
                assert(ordem.contains(livres[i]));
            }
        }
    }
}

/// Retirar o último endereço livre deixa os restantes sem repetições, fora de
/// uso e sem ele.
pub proof fn lema_retirar_livre(livres: Seq<usize>, ordem: Seq<usize>)
    requires
        livres_fora(livres, ordem),
        livres.no_duplicates(),
        livres.len() > 0,
    ensures
        livres.drop_last().no_duplicates(),
        livres_fora(livres.drop_last(), ordem),
        !livres.drop_last().contains(livres.last()),
        !ordem.contains(livres.last()),
{
    let l2 = livres.drop_last();
    assert forall|i: int| 0 <= i < l2.len() implies !ordem.contains(#[trigger] l2[i]) by {
        assert(l2[i] == livres[i]);
    }
    if l2.contains(livres.last()) {
        let j = l2.index_of(livres.last());
        assert(livres[j] == livres[livres.len() - 1]);
    }
}

} // verus!
